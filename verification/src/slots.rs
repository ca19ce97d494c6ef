//! Deployment slots: their names, their table in a configuration, their order,
//! and how they are shown.
use vstd::prelude::*;

use crate::order;
use crate::text;

verus! {

/// The name of the first of the two usual slots.
pub const BLUE: &'static str = "blue";

/// The name of the second of the two usual slots.
pub const GREEN: &'static str = "green";

/// A slot as a configuration file has it, under its name.
#[derive(Clone, Copy, Debug, PartialEq, Eq, Structural)]
pub struct SlotFileConfig {
    pub port: u16,
}

/// A slot: its name, and the port that the application listens on.
#[derive(Debug)]
pub struct SlotConfig {
    pub name: String,
    pub port: u16,
}

/// What a [`SlotConfig`] holds.
pub struct SlotView {
    pub name: Seq<char>,
    pub port: u16,
}

impl DeepView for SlotConfig {
    type V = SlotView;

    open spec fn deep_view(&self) -> SlotView {
        SlotView { name: self.name@, port: self.port }
    }
}

impl Clone for SlotConfig {
    fn clone(&self) -> (r: SlotConfig)
        ensures
            r.deep_view() == self.deep_view(),
    {
        SlotConfig { name: self.name.clone(), port: self.port }
    }
}

// ---------------------------------------------------------------------------
// The table of a configuration file
// ---------------------------------------------------------------------------

/// The slots of a configuration file, by name, in the order of their names.
#[derive(Debug)]
pub struct SlotTable {
    entries: Vec<SlotConfig>,
}

/// Whether the names of `s` increase.
pub open spec fn increasing(s: Seq<SlotView>) -> bool {
    forall|i: int, j: int|
        0 <= i < j < s.len() ==> text::before(#[trigger] s[i].name, #[trigger] s[j].name)
}

/// Whether no two slots of `s` have the same name.
pub open spec fn distinct(s: Seq<SlotView>) -> bool {
    forall|i: int, j: int|
        0 <= i < j < s.len() ==> (#[trigger] s[i]).name != (#[trigger] s[j]).name
}

/// Slots whose names increase have different names.
pub proof fn ordered_slots_are_distinct(s: Seq<SlotView>)
    requires
        increasing(s),
    ensures
        distinct(s),
{
    assert forall|i: int, j: int| 0 <= i < j < s.len() implies (#[trigger] s[i]).name != (
    #[trigger] s[j]).name by {
        assert(text::before(s[i].name, s[j].name));
        text::before_irreflexive(s[i].name);
    }
}

/// The port under a name.
pub open spec fn lookup(s: Seq<SlotView>, name: Seq<char>) -> Option<u16>
    decreases s.len(),
{
    if s.len() == 0 {
        None
    } else if s.last().name == name {
        Some(s.last().port)
    } else {
        lookup(s.drop_last(), name)
    }
}

/// `s`, in the order of the names, with a slot put in or given another port.
pub open spec fn inserted(s: Seq<SlotView>, slot: SlotView) -> Seq<SlotView>
    decreases s.len(),
{
    if s.len() == 0 {
        seq![slot]
    } else if s.last().name == slot.name {
        s.drop_last().push(slot)
    } else if text::before(s.last().name, slot.name) {
        s.push(slot)
    } else {
        inserted(s.drop_last(), slot).push(s.last())
    }
}

impl DeepView for SlotTable {
    type V = Seq<SlotView>;

    closed spec fn deep_view(&self) -> Seq<SlotView> {
        self.entries.deep_view()
    }
}

impl SlotTable {
    #[verifier::type_invariant]
    spec fn well_formed(self) -> bool {
        increasing(self.entries.deep_view())
    }

    /// A table without slots.
    pub fn new() -> (r: SlotTable)
        ensures
            r.deep_view() == Seq::<SlotView>::empty(),
    {
        let entries: Vec<SlotConfig> = Vec::new();
        assert(entries.deep_view() =~= Seq::empty());
        SlotTable { entries }
    }

    /// Puts a slot into the table; a slot of the same name is replaced.
    pub fn insert(&mut self, name: String, slot: SlotFileConfig)
        ensures
            final(self).deep_view() == inserted(
                old(self).deep_view(),
                (SlotView { name: name@, port: slot.port }),
            ),
    {
        proof {
            use_type_invariant(&*self);
        }
        let mut entries: Vec<SlotConfig> = Vec::new();
        let ghost before = self.entries.deep_view();
        assert(entries.deep_view() =~= Seq::empty());
        std::mem::swap(&mut self.entries, &mut entries);
        let ghost new = SlotView { name: name@, port: slot.port };
        let mut n: usize = entries.len();
        let ghost s = entries.deep_view();
        while n > 0 && text::is_before(name.as_str(), entries[n - 1].name.as_str())
            invariant
                n <= entries.len(),
                s == entries.deep_view(),
                forall|k: int| n <= k < s.len() ==> text::before(name@, #[trigger] s[k].name),
            decreases n,
        {
            assert(s[n - 1].name == entries@[n - 1].name@);
            n = n - 1;
        }
        assert(n > 0 ==> s[n - 1].name == entries@[n - 1].name@);
        if n > 0 && text::same(name.as_str(), entries[n - 1].name.as_str()) {
            proof {
                lemma_inserted_same(s, new, n - 1);
            }
            entries.set(n - 1, SlotConfig { name, port: slot.port });
            assert(entries.deep_view() =~= s.update(n - 1, new));
        } else {
            proof {
                if n > 0 {
                    text::before_total(s[n - 1].name, new.name);
                }
                lemma_inserted_new(s, new, n as int);
            }
            entries.insert(n, SlotConfig { name, port: slot.port });
            assert(entries.deep_view() =~= s.insert(n as int, new));
        }
        proof {
            insertion_keeps_the_order(s, new);
        }
        self.entries = entries;
    }

    /// The slot of a name.
    pub fn get(&self, name: &str) -> (r: Option<SlotFileConfig>)
        ensures
            match r {
                Some(slot) => lookup(self.deep_view(), name@) == Some(slot.port),
                None => lookup(self.deep_view(), name@) is None,
            },
    {
        let ghost s = self.deep_view();
        let mut n: usize = self.entries.len();
        assert(s.take(n as int) =~= s);
        while n > 0
            invariant
                n <= self.entries.len(),
                s == self.entries.deep_view(),
                lookup(s, name@) == lookup(s.take(n as int), name@),
            decreases n,
        {
            assert(s.take(n as int).drop_last() =~= s.take(n - 1));
            assert(s[n - 1].name == self.entries@[n - 1].name@);
            if text::same(self.entries[n - 1].name.as_str(), name) {
                return Some(SlotFileConfig { port: self.entries[n - 1].port });
            }
            n = n - 1;
        }
        None
    }
}

proof fn lemma_inserted_same(s: Seq<SlotView>, slot: SlotView, n: int)
    requires
        0 <= n < s.len(),
        s[n].name == slot.name,
        forall|k: int| n < k < s.len() ==> text::before(slot.name, #[trigger] s[k].name),
    ensures
        inserted(s, slot) == s.update(n, slot),
    decreases s.len(),
{
    if n == s.len() - 1 {
        assert(s.drop_last().push(slot) =~= s.update(n, slot));
    } else {
        let last = s.last();
        assert(text::before(slot.name, s[s.len() - 1].name));
        lemma_not_both(slot.name, last.name);
        assert forall|k: int| n < k < s.drop_last().len() implies text::before(
            slot.name,
            #[trigger] s.drop_last()[k].name,
        ) by {
            assert(s.drop_last()[k].name == s[k].name);
        }
        lemma_inserted_same(s.drop_last(), slot, n);
        assert(s.drop_last().update(n, slot).push(last) =~= s.update(n, slot));
    }
}

proof fn lemma_inserted_new(s: Seq<SlotView>, slot: SlotView, n: int)
    requires
        0 <= n <= s.len(),
        n > 0 ==> text::before(s[n - 1].name, slot.name),
        forall|k: int| n <= k < s.len() ==> text::before(slot.name, #[trigger] s[k].name),
    ensures
        inserted(s, slot) == s.insert(n, slot),
    decreases s.len(),
{
    if n == s.len() {
        if s.len() == 0 {
            assert(seq![slot] =~= s.insert(n, slot));
        } else {
            lemma_not_both(s.last().name, slot.name);
            assert(s.push(slot) =~= s.insert(n, slot));
        }
    } else {
        let last = s.last();
        assert(text::before(slot.name, s[s.len() - 1].name));
        lemma_not_both(slot.name, last.name);
        assert forall|k: int| n <= k < s.drop_last().len() implies text::before(
            slot.name,
            #[trigger] s.drop_last()[k].name,
        ) by {
            assert(s.drop_last()[k].name == s[k].name);
        }
        lemma_inserted_new(s.drop_last(), slot, n);
        assert(s.drop_last().insert(n, slot).push(last) =~= s.insert(n, slot));
    }
}

proof fn lemma_not_both(a: Seq<char>, b: Seq<char>)
    requires
        text::before(a, b),
    ensures
        a != b,
        !text::before(b, a),
{
    text::before_irreflexive(a);
    if text::before(b, a) {
        text::before_transitive(a, b, a);
    }
}

proof fn lemma_inserted_names(s: Seq<SlotView>, slot: SlotView)
    ensures
        forall|k: int|
            0 <= k < inserted(s, slot).len() ==> (#[trigger] inserted(s, slot)[k].name == slot.name
                || exists|j: int| 0 <= j < s.len() && s[j].name == inserted(s, slot)[k].name),
    decreases s.len(),
{
    let r = inserted(s, slot);
    if s.len() > 0 && s.last().name != slot.name && !text::before(s.last().name, slot.name) {
        let front = s.drop_last();
        lemma_inserted_names(front, slot);
        assert forall|k: int| 0 <= k < r.len() implies (#[trigger] r[k].name == slot.name
            || exists|j: int| 0 <= j < s.len() && s[j].name == r[k].name) by {
            if k < r.len() - 1 {
                assert(r[k].name == inserted(front, slot)[k].name);
                if r[k].name != slot.name {
                    let j = choose|j: int|
                        0 <= j < front.len() && front[j].name == inserted(front, slot)[k].name;
                    assert(s[j].name == r[k].name);
                }
            } else {
                assert(s[s.len() - 1].name == r[k].name);
            }
        }
    } else {
        assert forall|k: int| 0 <= k < r.len() implies (#[trigger] r[k].name == slot.name
            || exists|j: int| 0 <= j < s.len() && s[j].name == r[k].name) by {
            if k < r.len() - 1 {
                assert(s[k].name == r[k].name);
            }
        }
    }
}

/// A slot that is put in keeps the order of the names.
pub proof fn insertion_keeps_the_order(s: Seq<SlotView>, slot: SlotView)
    requires
        increasing(s),
    ensures
        increasing(inserted(s, slot)),
    decreases s.len(),
{
    let r = inserted(s, slot);
    if s.len() > 0 {
        let front = s.drop_last();
        assert forall|i: int, j: int| 0 <= i < j < front.len() implies text::before(
            #[trigger] front[i].name,
            #[trigger] front[j].name,
        ) by {
            assert(text::before(s[i].name, s[j].name));
        }
        if s.last().name == slot.name {
            assert forall|i: int, j: int| 0 <= i < j < r.len() implies text::before(
                #[trigger] r[i].name,
                #[trigger] r[j].name,
            ) by {
                assert(text::before(s[i].name, s[j].name));
            }
        } else if text::before(s.last().name, slot.name) {
            assert forall|i: int, j: int| 0 <= i < j < r.len() implies text::before(
                #[trigger] r[i].name,
                #[trigger] r[j].name,
            ) by {
                if j < s.len() {
                    assert(text::before(s[i].name, s[j].name));
                } else if i < s.len() - 1 {
                    assert(text::before(s[i].name, s[s.len() - 1].name));
                    text::before_transitive(s[i].name, s.last().name, slot.name);
                }
            }
        } else {
            text::before_total(s.last().name, slot.name);
            insertion_keeps_the_order(front, slot);
            lemma_inserted_names(front, slot);
            let inner = inserted(front, slot);
            assert forall|i: int, j: int| 0 <= i < j < r.len() implies text::before(
                #[trigger] r[i].name,
                #[trigger] r[j].name,
            ) by {
                assert(r[i].name == inner[i].name);
                if j < r.len() - 1 {
                    assert(r[j].name == inner[j].name);
                } else if inner[i].name != slot.name {
                    let k = choose|k: int| 0 <= k < front.len() && front[k].name == inner[i].name;
                    assert(text::before(s[k].name, s[s.len() - 1].name));
                }
            }
        }
    }
}

/// After a slot was put in, its name has its port, and every other name has
/// what it had.
pub proof fn insertion_is_found(s: Seq<SlotView>, slot: SlotView, name: Seq<char>)
    requires
        increasing(s),
    ensures
        lookup(inserted(s, slot), name) == if name == slot.name {
            Some(slot.port)
        } else {
            lookup(s, name)
        },
    decreases s.len(),
{
    let r = inserted(s, slot);
    if s.len() == 0 {
        assert(r.drop_last() =~= s);
    } else {
        let front = s.drop_last();
        assert forall|i: int, j: int| 0 <= i < j < front.len() implies text::before(
            #[trigger] front[i].name,
            #[trigger] front[j].name,
        ) by {
            assert(text::before(s[i].name, s[j].name));
        }
        if s.last().name == slot.name {
            assert(r.drop_last() =~= front);
        } else if text::before(s.last().name, slot.name) {
            assert(r.drop_last() =~= s);
        } else {
            insertion_is_found(front, slot, name);
            assert(r.drop_last() =~= inserted(front, slot));
        }
    }
}

/// The slots of a table, in the order of their names.
pub fn slots_from_file(slots: SlotTable) -> (r: Vec<SlotConfig>)
    ensures
        r.deep_view() == slots.deep_view(),
        increasing(r.deep_view()),
{
    proof {
        use_type_invariant(&slots);
    }
    slots.entries
}

// ---------------------------------------------------------------------------
// The order of slots
// ---------------------------------------------------------------------------

/// The order of slots: by name.
pub open spec fn slot_after() -> spec_fn(SlotView, SlotView) -> bool {
    |y: SlotView, x: SlotView| text::before(x.name, y.name)
}

/// The order of slots is one.
pub proof fn slot_order()
    ensures
        order::is_order(slot_after()),
{
    order::name_order();
    let after = slot_after();
    let by_name = order::name_after();
    assert forall|a: SlotView, b: SlotView| #[trigger] after(a, b) implies !after(b, a) by {
        assert(by_name(a.name, b.name));
        assert(!by_name(b.name, a.name));
    }
    assert forall|a: SlotView, b: SlotView, c: SlotView|
        !(#[trigger] after(a, b)) && !(#[trigger] after(b, c)) implies !after(a, c) by {
        assert(!by_name(a.name, b.name));
        assert(!by_name(b.name, c.name));
        assert(!by_name(a.name, c.name));
    }
}

/// Puts slots in the order of their names.
pub fn sort_slots(slots: &Vec<SlotConfig>) -> (r: Vec<SlotConfig>)
    ensures
        r.deep_view() == order::sorted(slots.deep_view(), slot_after()),
{
    let mut r: Vec<SlotConfig> = Vec::new();
    let mut i: usize = 0;
    let ghost all = slots.deep_view();
    let ghost after = slot_after();
    assert(all.take(0) =~= Seq::empty());
    assert(r.deep_view() =~= Seq::empty());
    while i < slots.len()
        invariant
            i <= slots.len(),
            all == slots.deep_view(),
            after == slot_after(),
            r.deep_view() == order::sorted(all.take(i as int), after),
        decreases slots.len() - i,
    {
        let x = slots[i].clone();
        let ghost slot = x.deep_view();
        let ghost s = r.deep_view();
        let mut n: usize = r.len();
        while n > 0 && text::is_before(x.name.as_str(), r[n - 1].name.as_str())
            invariant
                n <= r.len(),
                s == r.deep_view(),
                slot == x.deep_view(),
                after == slot_after(),
                forall|k: int| n <= k < s.len() ==> after(s[k], slot),
            decreases n,
        {
            assert(s[n - 1] == r@[n - 1].deep_view());
            n = n - 1;
        }
        proof {
            assert(n > 0 ==> s[n - 1] == r@[n - 1].deep_view());
            order::lemma_placed(s, slot, after, n as int);
            assert(all.take(i + 1).drop_last() =~= all.take(i as int));
            assert(all[i as int] == slots@[i as int].deep_view());
        }
        r.insert(n, x);
        assert(r.deep_view() =~= s.insert(n as int, slot));
        i = i + 1;
    }
    assert(all.take(slots.len() as int) =~= all);
    r
}

// ---------------------------------------------------------------------------
// How slots are shown
// ---------------------------------------------------------------------------

/// How a slot is shown on a terminal: a mark, in colour for the two usual
/// slots, and the name.
pub open spec fn label(slot: Seq<char>) -> Seq<char> {
    if slot == "blue"@ {
        "\x1b[34m⏹\x1b[0m blue"@
    } else if slot == "green"@ {
        "\x1b[32m⏹\x1b[0m green"@
    } else {
        "⏹ "@ + slot
    }
}

/// How a slot is shown on a terminal.
pub fn slot_label(slot: &str) -> (r: String)
    ensures
        r@ == label(slot@),
{
    if text::same(slot, "blue") {
        "\x1b[34m⏹\x1b[0m blue".to_owned()
    } else if text::same(slot, "green") {
        "\x1b[32m⏹\x1b[0m green".to_owned()
    } else {
        text::concat("⏹ ", slot)
    }
}

/// How the slot that has the traffic is shown on a terminal.
pub fn active_slot_label(slot: Option<&str>) -> (r: String)
    ensures
        r@ == match slot {
            Some(name) => label(name@),
            None => "none"@,
        },
{
    match slot {
        Some(name) => slot_label(name),
        None => "none".to_owned(),
    }
}

/// A slot is found by its name where the table has it, with the port of the last
/// one of that name, and not otherwise.
pub proof fn slots_are_found_by_name(s: Seq<SlotView>, name: Seq<char>)
    ensures
        lookup(s, name) is None <==> forall|i: int|
            0 <= i < s.len() ==> (#[trigger] s[i]).name != name,
        lookup(s, name) matches Some(port) ==> exists|i: int|
            {
                &&& 0 <= i < s.len()
                &&& #[trigger] s[i] == (SlotView { name, port })
                &&& forall|k: int| i < k < s.len() ==> (#[trigger] s[k]).name != name
            },
    decreases s.len(),
{
    if s.len() > 0 {
        let t = s.drop_last();
        assert(s[s.len() - 1] == s.last());
        if s.last().name != name {
            slots_are_found_by_name(t, name);
            if let Some(port) = lookup(t, name) {
                let i = choose|i: int|
                    {
                        &&& 0 <= i < t.len()
                        &&& #[trigger] t[i] == (SlotView { name, port })
                        &&& forall|k: int| i < k < t.len() ==> (#[trigger] t[k]).name != name
                    };
                assert(s[i] == (SlotView { name, port }));
                assert forall|k: int| i < k < s.len() implies (#[trigger] s[k]).name != name by {
                    if k < t.len() {
                        assert(t[k] == s[k]);
                    }
                }
            } else {
                assert forall|i: int| 0 <= i < s.len() implies (#[trigger] s[i]).name != name by {
                    if i < t.len() {
                        assert(t[i] == s[i]);
                    }
                }
            }
        } else {
            assert(s[s.len() - 1] == (SlotView { name, port: s.last().port }));
        }
    }
}

/// A new slot makes the table longer by one; one of a name that the table has
/// takes the place of the other.
pub proof fn insertion_adds_or_replaces(s: Seq<SlotView>, slot: SlotView)
    requires
        increasing(s),
    ensures
        lookup(s, slot.name) is None ==> inserted(s, slot).len() == s.len() + 1,
        lookup(s, slot.name) is Some ==> inserted(s, slot).len() == s.len(),
        inserted(s, slot).contains(slot),
    decreases s.len(),
{
    let r = inserted(s, slot);
    if s.len() == 0 {
        assert(r[0] == slot);
    } else {
        let t = s.drop_last();
        assert(increasing(t)) by {
            assert forall|i: int, j: int| 0 <= i < j < t.len() implies text::before(
                #[trigger] t[i].name,
                #[trigger] t[j].name,
            ) by {
                assert(text::before(s[i].name, s[j].name));
            }
        }
        if s.last().name == slot.name || text::before(s.last().name, slot.name) {
            assert(r[r.len() - 1] == slot);
            if s.last().name != slot.name {
                slots_are_found_by_name(s, slot.name);
                assert forall|i: int| 0 <= i < s.len() implies (#[trigger] s[i]).name
                    != slot.name by {
                    text::before_irreflexive(slot.name);
                    if i < s.len() - 1 {
                        assert(text::before(s[i].name, s[s.len() - 1].name));
                        text::before_transitive(s[i].name, s.last().name, slot.name);
                    }
                }
            }
        } else {
            insertion_adds_or_replaces(t, slot);
            let k = choose|k: int| 0 <= k < inserted(t, slot).len() && inserted(t, slot)[k] == slot;
            assert(r[k] == slot);
        }
    }
}

/// The label of a slot ends with its name, and two slots have different labels.
pub proof fn labels_name_their_slots(a: Seq<char>, b: Seq<char>)
    ensures
        text::contains_text(label(a), a),
        label(a).len() > a.len(),
        label(a).skip(label(a).len() - a.len()) == a,
        a != b && a.len() == b.len() ==> label(a) != label(b),
{
    lemma_label_ends(a);
    lemma_label_ends(b);
    text::text_occurs_where_it_stands(
        label(a).take(label(a).len() - a.len()),
        a,
        Seq::empty(),
    );
    assert(label(a).take(label(a).len() - a.len()) + a + Seq::<char>::empty() =~= label(a));
}

proof fn lemma_label_ends(a: Seq<char>)
    ensures
        label(a).len() > a.len(),
        label(a).skip(label(a).len() - a.len()) == a,
{
    reveal_strlit("blue");
    reveal_strlit("green");
    reveal_strlit("\x1b[34m⏹\x1b[0m blue");
    reveal_strlit("\x1b[32m⏹\x1b[0m green");
    reveal_strlit("⏹ ");
    assert(label(a).skip(label(a).len() - a.len()) =~= a);
}

} // verus!
