//! The parsed form of a configuration, and the call of the parser.
use vstd::prelude::*;

use nginx_config::ast;

use crate::number;
use crate::text;

verus! {

// ---------------------------------------------------------------------------
// The tree
// ---------------------------------------------------------------------------

/// A name in a `server_name` directive.
#[derive(Debug)]
pub enum NginxName {
    Exact(String),
    Suffix(String),
    StarSuffix(String),
    StarPrefix(String),
    Regex(String),
}

/// The address in a `listen` directive.
#[derive(Debug)]
pub enum NginxAddress {
    Ip(String),
    StarPort(u16),
    Port(u16),
    Unix(String),
}

/// The pattern of a `location` block.
#[derive(Debug)]
pub enum NginxPattern {
    Prefix(String),
    Exact(String),
    FinalPrefix(String),
    Regex(String),
    RegexInsensitive(String),
    Named(String),
}

/// A directive, as far as the search for backends looks at it.
#[derive(Debug)]
pub enum NginxItem {
    Http(Vec<NginxItem>),
    Server(Vec<NginxItem>),
    Location(NginxPattern, Vec<NginxItem>),
    ServerName(Vec<NginxName>),
    Listen(NginxAddress),
    ProxyPass(String),
    Other,
}

/// What a [`NginxName`] holds.
pub enum ServerNameView {
    Exact(Seq<char>),
    Suffix(Seq<char>),
    StarSuffix(Seq<char>),
    StarPrefix(Seq<char>),
    Regex(Seq<char>),
}

/// What an [`NginxAddress`] holds.
pub enum AddressView {
    Ip(Seq<char>),
    StarPort(u16),
    Port(u16),
    Unix(Seq<char>),
}

/// What a [`NginxPattern`] holds.
pub enum PatternView {
    Prefix(Seq<char>),
    Exact(Seq<char>),
    FinalPrefix(Seq<char>),
    Regex(Seq<char>),
    RegexInsensitive(Seq<char>),
    Named(Seq<char>),
}

/// What an [`NginxItem`] holds.
pub enum ItemView {
    Http(Seq<ItemView>),
    Server(Seq<ItemView>),
    Location(PatternView, Seq<ItemView>),
    ServerName(Seq<ServerNameView>),
    Listen(AddressView),
    ProxyPass(Seq<char>),
    Other,
}

impl DeepView for NginxName {
    type V = ServerNameView;

    open spec fn deep_view(&self) -> ServerNameView {
        match self {
            NginxName::Exact(value) => ServerNameView::Exact(value@),
            NginxName::Suffix(value) => ServerNameView::Suffix(value@),
            NginxName::StarSuffix(value) => ServerNameView::StarSuffix(value@),
            NginxName::StarPrefix(value) => ServerNameView::StarPrefix(value@),
            NginxName::Regex(value) => ServerNameView::Regex(value@),
        }
    }
}

impl DeepView for NginxAddress {
    type V = AddressView;

    open spec fn deep_view(&self) -> AddressView {
        match self {
            NginxAddress::Ip(value) => AddressView::Ip(value@),
            NginxAddress::StarPort(port) => AddressView::StarPort(*port),
            NginxAddress::Port(port) => AddressView::Port(*port),
            NginxAddress::Unix(path) => AddressView::Unix(path@),
        }
    }
}

impl DeepView for NginxPattern {
    type V = PatternView;

    open spec fn deep_view(&self) -> PatternView {
        match self {
            NginxPattern::Prefix(value) => PatternView::Prefix(value@),
            NginxPattern::Exact(value) => PatternView::Exact(value@),
            NginxPattern::FinalPrefix(value) => PatternView::FinalPrefix(value@),
            NginxPattern::Regex(value) => PatternView::Regex(value@),
            NginxPattern::RegexInsensitive(value) => PatternView::RegexInsensitive(value@),
            NginxPattern::Named(value) => PatternView::Named(value@),
        }
    }
}

/// What an item holds.
pub open spec fn item_view(item: NginxItem) -> ItemView
    decreases item,
{
    match item {
        NginxItem::Http(items) => ItemView::Http(items_view(items@)),
        NginxItem::Server(items) => ItemView::Server(items_view(items@)),
        NginxItem::Location(pattern, items) => ItemView::Location(
            pattern.deep_view(),
            items_view(items@),
        ),
        NginxItem::ServerName(names) => ItemView::ServerName(names.deep_view()),
        NginxItem::Listen(address) => ItemView::Listen(address.deep_view()),
        NginxItem::ProxyPass(value) => ItemView::ProxyPass(value@),
        NginxItem::Other => ItemView::Other,
    }
}

/// What the items of a list hold.
pub open spec fn items_view(items: Seq<NginxItem>) -> Seq<ItemView>
    decreases items,
{
    Seq::new(
        items.len(),
        |i: int|
            if 0 <= i < items.len() {
                item_view(items[i])
            } else {
                ItemView::Other
            },
    )
}

// ---------------------------------------------------------------------------
// In words
// ---------------------------------------------------------------------------

/// A server name as it is written in a configuration.
pub open spec fn server_name_text(name: ServerNameView) -> Seq<char> {
    match name {
        ServerNameView::Exact(value) => value,
        ServerNameView::Suffix(value) => "."@ + value,
        ServerNameView::StarSuffix(value) => "*."@ + value,
        ServerNameView::StarPrefix(value) => value + ".*"@,
        ServerNameView::Regex(value) => "~"@ + value,
    }
}

/// An address as it is written in a configuration.
pub open spec fn address_text(address: AddressView) -> Seq<char> {
    match address {
        AddressView::Ip(value) => value,
        AddressView::StarPort(port) => "*:"@ + number::decimal(port as nat),
        AddressView::Port(port) => number::decimal(port as nat),
        AddressView::Unix(path) => "unix:"@ + path,
    }
}

/// A location pattern as it is written in a configuration.
pub open spec fn location_text(pattern: PatternView) -> Seq<char> {
    match pattern {
        PatternView::Prefix(value) => value,
        PatternView::Exact(value) => "= "@ + value,
        PatternView::FinalPrefix(value) => "^~ "@ + value,
        PatternView::Regex(value) => "~ "@ + value,
        PatternView::RegexInsensitive(value) => "~* "@ + value,
        PatternView::Named(value) => "@"@ + value,
    }
}

/// A server name as it is written in a configuration.
pub fn server_name_to_string(name: &NginxName) -> (r: String)
    ensures
        r@ == server_name_text(name.deep_view()),
{
    match name {
        NginxName::Exact(value) => value.clone(),
        NginxName::Suffix(value) => text::concat(".", value.as_str()),
        NginxName::StarSuffix(value) => text::concat("*.", value.as_str()),
        NginxName::StarPrefix(value) => text::concat(value.as_str(), ".*"),
        NginxName::Regex(value) => text::concat("~", value.as_str()),
    }
}

/// An address as it is written in a configuration.
pub fn address_to_string(address: &NginxAddress) -> (r: String)
    ensures
        r@ == address_text(address.deep_view()),
{
    match address {
        NginxAddress::Ip(value) => value.clone(),
        NginxAddress::StarPort(port) => {
            let digits = number::write_number(*port as u64);
            text::concat("*:", digits.as_str())
        },
        NginxAddress::Port(port) => number::write_number(*port as u64),
        NginxAddress::Unix(path) => text::concat("unix:", path.as_str()),
    }
}

/// A location pattern as it is written in a configuration.
pub fn location_pattern_to_string(pattern: &NginxPattern) -> (r: String)
    ensures
        r@ == location_text(pattern.deep_view()),
{
    match pattern {
        NginxPattern::Prefix(value) => value.clone(),
        NginxPattern::Exact(value) => text::concat("= ", value.as_str()),
        NginxPattern::FinalPrefix(value) => text::concat("^~ ", value.as_str()),
        NginxPattern::Regex(value) => text::concat("~ ", value.as_str()),
        NginxPattern::RegexInsensitive(value) => text::concat("~* ", value.as_str()),
        NginxPattern::Named(value) => text::concat("@", value.as_str()),
    }
}

// ---------------------------------------------------------------------------
// The tokens of a text
// ---------------------------------------------------------------------------

/// A token, as the parser cuts it out of a text: a semicolon or a brace, or a
/// word or string.
#[derive(Debug)]
pub enum Token {
    Mark,
    Text(String),
}

/// What a [`Token`] holds.
pub enum TokenView {
    Mark,
    Text(Seq<char>),
}

impl DeepView for Token {
    type V = TokenView;

    open spec fn deep_view(&self) -> TokenView {
        match self {
            Token::Mark => TokenView::Mark,
            Token::Text(value) => TokenView::Text(value@),
        }
    }
}

/// Whether `c` is skipped between tokens: a blank, or a byte order mark.
pub open spec fn blank(c: char) -> bool {
    c == ' ' || c == '\t' || c == '\r' || c == '\n' || c == '\u{feff}'
}

/// Whether `c` opens and closes strings.
pub open spec fn quote(c: char) -> bool {
    c == '"' || c == '\''
}

/// Whether `c` is a token by itself.
pub open spec fn mark(c: char) -> bool {
    c == ';' || c == '{' || c == '}'
}

/// The number of bytes in which `c` is encoded.
pub open spec fn width(c: char) -> nat {
    if (c as u32) < 0x80 {
        1
    } else if (c as u32) < 0x800 {
        2
    } else if (c as u32) < 0x10000 {
        3
    } else {
        4
    }
}

/// The number of bytes in which `s` is encoded.
pub open spec fn size(s: Seq<char>) -> nat
    decreases s.len(),
{
    if s.len() == 0 {
        0
    } else {
        size(s.drop_last()) + width(s.last())
    }
}

/// The index of the first character from `i` on that is not skipped.
pub open spec fn past_blanks(s: Seq<char>, i: int) -> int
    decreases s.len() - i,
{
    if 0 <= i < s.len() && blank(s[i]) {
        past_blanks(s, i + 1)
    } else {
        i
    }
}

/// The index behind the first closing brace from `i` on.
pub open spec fn past_brace(s: Seq<char>, i: int) -> int
    decreases s.len() - i,
{
    if 0 <= i < s.len() {
        if s[i] == '}' {
            i + 1
        } else {
            past_brace(s, i + 1)
        }
    } else {
        i
    }
}

/// The index at which a word ends that goes on at `j` behind the character
/// `prev`: in front of a blank, quote or mark. A backslash takes in the space,
/// quote or mark behind it, and `${` takes in everything up to the next closing
/// brace.
pub open spec fn word_stop(s: Seq<char>, j: int, prev: char) -> int
    decreases s.len() - j,
{
    proof {
        lemma_past_brace(s, j + 1);
    }
    if !(0 <= j < s.len()) {
        j
    } else {
        let c = s[j];
        if c == '\r' || c == '\t' || c == '\n' {
            j
        } else if c == '{' && prev == '$' {
            word_stop(s, past_brace(s, j + 1), c)
        } else if (c == ' ' || quote(c) || mark(c)) && prev != '\\' {
            j
        } else if c == '\\' && prev == '\\' {
            word_stop(s, j + 1, ' ')
        } else {
            word_stop(s, j + 1, c)
        }
    }
}

/// The index behind the quote `q` that closes a string which goes on at `j`, or
/// `None` where the string is not closed on its line. A quote behind a backslash
/// closes nothing.
pub open spec fn string_stop(s: Seq<char>, j: int, q: char) -> Option<int>
    decreases s.len() - j,
{
    if !(0 < j < s.len()) {
        None
    } else if s[j] == q && s[j - 1] != '\\' {
        Some(j + 1)
    } else if s[j] == '\n' {
        None
    } else {
        string_stop(s, j + 1, q)
    }
}

/// `s` without its first `n` bytes, or `None` where they end inside a character.
pub open spec fn without_bytes(s: Seq<char>, n: int) -> Option<Seq<char>>
    decreases s.len(),
{
    if n == 0 {
        Some(s)
    } else if s.len() == 0 || width(s[0]) > n {
        None
    } else {
        without_bytes(s.drop_first(), n - width(s[0]))
    }
}

/// What the parser takes a word for: it drops from the front as many bytes as
/// the word has more than characters. `None` where that is not possible.
pub open spec fn cut(word: Seq<char>) -> Option<Seq<char>> {
    without_bytes(word, size(word) - word.len())
}

/// What stands at an index of a text.
pub enum Piece {
    /// A token that ends in front of an index.
    Whole(TokenView, int),
    /// A string that is not closed.
    Open,
    /// A word that cannot be cut out.
    Torn,
}

/// What stands at `i`, where the text has a character that is not skipped.
pub open spec fn piece(s: Seq<char>, i: int) -> Piece {
    let c = s[i];
    if mark(c) {
        Piece::Whole(TokenView::Mark, i + 1)
    } else if quote(c) {
        match string_stop(s, i + 1, c) {
            Some(end) => Piece::Whole(TokenView::Text(s.subrange(i, end)), end),
            None => Piece::Open,
        }
    } else {
        let end = word_stop(s, i + 1, c);
        match cut(s.subrange(i, end)) {
            Some(value) => Piece::Whole(TokenView::Text(value), end),
            None => Piece::Torn,
        }
    }
}

/// The tokens from `i` on, up to the end or to a string that is not closed, or
/// `None` where a word cannot be cut out.
pub open spec fn tokens(s: Seq<char>, i: int) -> Option<Seq<TokenView>>
    decreases s.len() - i,
{
    let start = past_blanks(s, i);
    proof {
        lemma_past_blanks(s, i);
        lemma_piece(s, start);
    }
    if !(0 <= start < s.len()) {
        Some(Seq::empty())
    } else {
        match piece(s, start) {
            Piece::Open => Some(Seq::empty()),
            Piece::Torn => None,
            Piece::Whole(token, end) => match tokens(s, end) {
                Some(rest) => Some(seq![token] + rest),
                None => None,
            },
        }
    }
}

pub proof fn lemma_past_blanks(s: Seq<char>, i: int)
    ensures
        i <= past_blanks(s, i),
        0 <= i <= s.len() ==> past_blanks(s, i) <= s.len(),
        0 <= past_blanks(s, i) < s.len() ==> !blank(s[past_blanks(s, i)]),
    decreases s.len() - i,
{
    if 0 <= i < s.len() && blank(s[i]) {
        lemma_past_blanks(s, i + 1);
    }
}

pub proof fn lemma_past_brace(s: Seq<char>, i: int)
    ensures
        i <= past_brace(s, i),
        0 <= i <= s.len() ==> past_brace(s, i) <= s.len(),
    decreases s.len() - i,
{
    if 0 <= i < s.len() && s[i] != '}' {
        lemma_past_brace(s, i + 1);
    }
}

proof fn lemma_word_stop(s: Seq<char>, j: int, prev: char)
    ensures
        j <= word_stop(s, j, prev),
        0 <= j <= s.len() ==> word_stop(s, j, prev) <= s.len(),
    decreases s.len() - j,
{
    if 0 <= j < s.len() {
        let c = s[j];
        lemma_past_brace(s, j + 1);
        if c == '\r' || c == '\t' || c == '\n' {
        } else if c == '{' && prev == '$' {
            lemma_word_stop(s, past_brace(s, j + 1), c);
        } else if (c == ' ' || quote(c) || mark(c)) && prev != '\\' {
        } else if c == '\\' && prev == '\\' {
            lemma_word_stop(s, j + 1, ' ');
        } else {
            lemma_word_stop(s, j + 1, c);
        }
    }
}

proof fn lemma_string_stop(s: Seq<char>, j: int, q: char)
    ensures
        string_stop(s, j, q) matches Some(end) ==> j < end <= s.len(),
    decreases s.len() - j,
{
    if 0 < j < s.len() && !(s[j] == q && s[j - 1] != '\\') && s[j] != '\n' {
        lemma_string_stop(s, j + 1, q);
    }
}

pub proof fn lemma_piece(s: Seq<char>, i: int)
    ensures
        0 <= i < s.len() ==> (piece(s, i) matches Piece::Whole(_, end) ==> i < end <= s.len()),
{
    if 0 <= i < s.len() {
        lemma_word_stop(s, i + 1, s[i]);
        lemma_string_stop(s, i + 1, s[i]);
    }
}

fn is_blank(c: char) -> (r: bool)
    ensures
        r == blank(c),
{
    c == ' ' || c == '\t' || c == '\r' || c == '\n' || c == '\u{feff}'
}

fn is_quote(c: char) -> (r: bool)
    ensures
        r == quote(c),
{
    c == '"' || c == '\''
}

fn is_mark(c: char) -> (r: bool)
    ensures
        r == mark(c),
{
    c == ';' || c == '{' || c == '}'
}

fn width_of(c: char) -> (r: u128)
    ensures
        r == width(c),
        1 <= r <= 4,
{
    let code = c as u32;
    if code < 0x80 {
        1
    } else if code < 0x800 {
        2
    } else if code < 0x10000 {
        3
    } else {
        4
    }
}

fn skip_blanks(v: &Vec<char>, from: usize) -> (r: usize)
    requires
        from <= v.len(),
    ensures
        r == past_blanks(v@, from as int),
        from <= r <= v.len(),
{
    let mut i: usize = from;
    while i < v.len() && is_blank(v[i])
        invariant
            from <= i <= v.len(),
            past_blanks(v@, from as int) == past_blanks(v@, i as int),
        decreases v.len() - i,
    {
        i = i + 1;
    }
    i
}

fn skip_brace(v: &Vec<char>, from: usize) -> (r: usize)
    requires
        from <= v.len(),
    ensures
        r == past_brace(v@, from as int),
        from <= r <= v.len(),
{
    let mut i: usize = from;
    while i < v.len()
        invariant
            from <= i <= v.len(),
            past_brace(v@, from as int) == past_brace(v@, i as int),
        decreases v.len() - i,
    {
        if v[i] == '}' {
            return i + 1;
        }
        i = i + 1;
    }
    i
}

fn find_word_stop(v: &Vec<char>, from: usize) -> (r: usize)
    requires
        from < v.len(),
    ensures
        r == word_stop(v@, from + 1, v@[from as int]),
        from < r <= v.len(),
{
    let mut j: usize = from + 1;
    let mut prev: char = v[from];
    while j < v.len()
        invariant
            from < j <= v.len(),
            word_stop(v@, from + 1, v@[from as int]) == word_stop(v@, j as int, prev),
        decreases v.len() - j,
    {
        let c = v[j];
        if c == '\r' || c == '\t' || c == '\n' {
            return j;
        } else if c == '{' && prev == '$' {
            j = skip_brace(v, j + 1);
            prev = c;
        } else if (c == ' ' || is_quote(c) || is_mark(c)) && prev != '\\' {
            return j;
        } else if c == '\\' && prev == '\\' {
            j = j + 1;
            prev = ' ';
        } else {
            j = j + 1;
            prev = c;
        }
    }
    j
}

fn find_string_stop(v: &Vec<char>, from: usize) -> (r: Option<usize>)
    requires
        from < v.len(),
    ensures
        match r {
            Some(end) => string_stop(v@, from + 1, v@[from as int]) == Some(end as int) && from
                < end <= v.len(),
            None => string_stop(v@, from + 1, v@[from as int]) is None,
        },
{
    let q = v[from];
    let mut j: usize = from + 1;
    while j < v.len()
        invariant
            from < j <= v.len(),
            q == v@[from as int],
            string_stop(v@, from + 1, q) == string_stop(v@, j as int, q),
        decreases v.len() - j,
    {
        if v[j] == q && v[j - 1] != '\\' {
            return Some(j + 1);
        }
        if v[j] == '\n' {
            return None;
        }
        j = j + 1;
    }
    None
}

fn cut_word(v: &Vec<char>, from: usize, to: usize) -> (r: Option<String>)
    requires
        from <= to <= v.len(),
    ensures
        r.deep_view() == cut(v@.subrange(from as int, to as int)),
{
    let ghost word = v@.subrange(from as int, to as int);
    let mut extra: u128 = 0;
    let mut i: usize = from;
    assert(word.take(0) =~= Seq::empty());
    while i < to
        invariant
            from <= i <= to <= v.len(),
            word == v@.subrange(from as int, to as int),
            extra <= 3 * (i - from),
            extra == size(word.take(i - from)) - (i - from),
        decreases to - i,
    {
        assert(word.take(i - from + 1).drop_last() =~= word.take(i - from));
        extra = extra + (width_of(v[i]) - 1);
        i = i + 1;
    }
    assert(word.take(to - from) =~= word);
    let mut k: usize = from;
    while extra > 0
        invariant
            from <= k <= to <= v.len(),
            word == v@.subrange(from as int, to as int),
            cut(word) == without_bytes(v@.subrange(k as int, to as int), extra as int),
        decreases to - k,
    {
        let ghost rest = v@.subrange(k as int, to as int);
        if k == to {
            return None;
        }
        let w = width_of(v[k]);
        assert(rest[0] == v@[k as int]);
        if w > extra {
            return None;
        }
        assert(rest.drop_first() =~= v@.subrange(k + 1, to as int));
        extra = extra - w;
        k = k + 1;
    }
    Some(text::text_of(v, k, to))
}

fn read_tokens(v: &Vec<char>) -> (r: Option<Vec<Token>>)
    ensures
        r.deep_view() == tokens(v@, 0),
{
    let mut r: Vec<Token> = Vec::new();
    let mut i: usize = 0;
    let ghost mut left = tokens(v@, 0);
    proof {
        assert(r.deep_view() =~= Seq::empty());
        if left is Some {
            assert(r.deep_view() + left->0 =~= left->0);
        }
    }
    loop
        invariant
            i <= v.len(),
            left == tokens(v@, i as int),
            tokens(v@, 0) == match left {
                Some(rest) => Some(r.deep_view() + rest),
                None => None,
            },
        decreases v.len() - i,
    {
        let start = skip_blanks(v, i);
        let ghost done = r.deep_view();
        if start >= v.len() {
            assert(done + Seq::<TokenView>::empty() =~= done);
            return Some(r);
        }
        proof {
            lemma_piece(v@, start as int);
        }
        let c = v[start];
        let (token, end) = if is_mark(c) {
            (Token::Mark, start + 1)
        } else if is_quote(c) {
            match find_string_stop(v, start) {
                Some(end) => (Token::Text(text::text_of(v, start, end)), end),
                None => {
                    assert(done + Seq::<TokenView>::empty() =~= done);
                    return Some(r);
                },
            }
        } else {
            let end = find_word_stop(v, start);
            match cut_word(v, start, end) {
                Some(value) => (Token::Text(value), end),
                None => {
                    return None;
                },
            }
        };
        let ghost view = token.deep_view();
        assert(piece(v@, start as int) == Piece::Whole(view, end as int));
        r.push(token);
        i = end;
        proof {
            left = tokens(v@, end as int);
            assert(r.deep_view() =~= done.push(view));
            if left is Some {
                assert(done + (seq![view] + left->0) =~= r.deep_view() + left->0);
            }
        }
    }
}

// ---------------------------------------------------------------------------
// What the parser can take
// ---------------------------------------------------------------------------

/// The words and strings from index `n` of the tokens up to the next mark.
pub open spec fn texts(list: Seq<TokenView>, n: int) -> Seq<Seq<char>>
    decreases list.len() - n,
{
    if 0 <= n < list.len() {
        match list[n] {
            TokenView::Text(value) => seq![value] + texts(list, n + 1),
            TokenView::Mark => Seq::empty(),
        }
    } else {
        Seq::empty()
    }
}

/// Whether the token at index `n` is the name of a directive.
pub open spec fn heads(list: Seq<TokenView>, n: int) -> bool {
    list[n] is Text && (n == 0 || list[n - 1] is Mark)
}

/// Whether every `${` in `value` from index `i` on has a closing brace behind
/// it.
pub open spec fn variables_close(value: Seq<char>, i: int) -> bool
    decreases value.len() - i,
{
    if 0 <= i < value.len() {
        &&& text::occurs(value, "${"@, i) ==> value.skip(i).contains('}')
        &&& variables_close(value, i + 1)
    } else {
        true
    }
}

/// Whether the parser can look for variables in `value`: a string has no `${` in
/// it, and in a word each of them is closed.
pub open spec fn value_is_safe(value: Seq<char>) -> bool {
    if value.len() > 0 && quote(value[0]) {
        !text::contains_text(value, "${"@)
    } else {
        variables_close(value, 0)
    }
}

/// Whether the argument `k` of the directive `name` is one in which no variables
/// are looked for.
pub open spec fn read_as_text(name: Seq<char>, k: int) -> bool {
    ||| name == "server_name"@ || name == "location"@ || name == "listen"@
    ||| name == "limit_except"@ || name == "proxy_ignore_headers"@
    ||| name == "rewrite"@ && k == 0
    ||| name == "access_log"@ && k == 1
}

/// Whether the parser can take the address of a `listen` directive: behind
/// `unix:` there is a character of one byte.
pub open spec fn address_is_safe(value: Seq<char>) -> bool {
    text::starts(value, "unix:"@) ==> value.len() > 5 && width(value[5]) == 1
}

/// The parts of a condition without its opening parenthesis, or `None` where it
/// has none.
pub open spec fn without_opening(parts: Seq<Seq<char>>) -> Option<Seq<Seq<char>>> {
    if parts.len() == 0 || parts[0].len() == 0 || parts[0][0] != '(' {
        None
    } else if parts[0].len() == 1 {
        Some(parts.drop_first())
    } else {
        Some(parts.update(0, parts[0].drop_first()))
    }
}

/// The parts of a condition without its closing parenthesis, or `None` where it
/// has none.
pub open spec fn without_closing(parts: Seq<Seq<char>>) -> Option<Seq<Seq<char>>> {
    if parts.len() == 0 || !text::ends(parts.last(), ')') {
        None
    } else if parts.last().len() == 1 {
        Some(parts.drop_last())
    } else {
        Some(parts.update(parts.len() - 1, parts.last().drop_last()))
    }
}

/// What stands between the parentheses of a condition.
pub open spec fn condition(parts: Seq<Seq<char>>) -> Option<Seq<Seq<char>>> {
    match without_opening(parts) {
        Some(inner) => without_closing(inner),
        None => None,
    }
}

/// Whether the parser can take the condition of an `if` directive: where it does
/// not begin with a variable, there is an operand behind its first part.
pub open spec fn condition_is_safe(parts: Seq<Seq<char>>) -> bool {
    match condition(parts) {
        None => true,
        Some(inner) => {
            ||| inner.len() == 0
            ||| inner[0].len() > 0 && inner[0][0] == '$' && value_is_safe(inner[0])
            ||| (inner[0].len() == 0 || inner[0][0] != '$') && inner.len() > 1 && value_is_safe(
                inner[1],
            )
        },
    }
}

/// Whether the parser can look for variables in every argument from `k` on.
pub open spec fn values_are_safe(parts: Seq<Seq<char>>, k: int, name: Option<Seq<char>>) -> bool
    decreases parts.len() - k,
{
    if 0 <= k < parts.len() {
        &&& (name matches Some(name) && read_as_text(name, k)) || value_is_safe(parts[k])
        &&& values_are_safe(parts, k + 1, name)
    } else {
        true
    }
}

/// Whether the parser can take the options of an `access_log` directive from `k`
/// on: it looks for variables in what stands behind `if=`.
pub open spec fn options_are_safe(parts: Seq<Seq<char>>, k: int) -> bool
    decreases parts.len() - k,
{
    if 0 <= k < parts.len() {
        &&& text::starts(parts[k], "if="@) ==> value_is_safe(parts[k].skip(3))
        &&& options_are_safe(parts, k + 1)
    } else {
        true
    }
}

/// Whether the parser can take a directive with these arguments.
pub open spec fn directive_is_safe(name: Seq<char>, parts: Seq<Seq<char>>) -> bool {
    if name == "if"@ {
        condition_is_safe(parts)
    } else {
        &&& values_are_safe(parts, 0, Some(name))
        &&& name == "listen"@ && parts.len() > 0 ==> address_is_safe(parts[0])
        &&& name == "access_log"@ ==> options_are_safe(parts, 2)
    }
}

/// Whether there is a `map` directive. In its block the names of directives
/// stand for themselves, and what is behind them is looked through for
/// variables.
pub open spec fn has_map(list: Seq<TokenView>) -> bool {
    exists|n: int| 0 <= n < list.len() && #[trigger] list[n] == TokenView::Text("map"@)
}

/// Whether the parser can take the directive at index `n`, if one begins there.
pub open spec fn place_is_safe(list: Seq<TokenView>, n: int) -> bool {
    heads(list, n) ==> {
        &&& directive_is_safe(list[n]->Text_0, texts(list, n + 1))
        &&& has_map(list) ==> values_are_safe(texts(list, n + 1), 0, None)
    }
}

/// Whether a text is one that the parser answers, with a tree or with an error:
/// it has no comments, its words can be cut out, and its directives can be
/// taken.
pub open spec fn parser_takes(source: Seq<char>) -> bool {
    &&& !source.contains('#')
    &&& tokens(source, 0) is Some
    &&& forall|n: int|
        0 <= n < tokens(source, 0)->0.len() ==> #[trigger] place_is_safe(tokens(source, 0)->0, n)
}

fn check_variables(value: &str) -> (r: bool)
    ensures
        r == variables_close(value@, 0),
{
    let v = text::chars_of(value);
    let opening = text::chars_of("${");
    let mut last: usize = 0;
    let mut i: usize = v.len();
    while i > 0
        invariant
            i <= v.len(),
            v@ == value@,
            opening@ == "${"@,
            last <= v.len(),
            last > 0 ==> i < last && v@[last - 1] == '}',
            last == 0 ==> forall|k: int| i <= k < v.len() ==> v@[k] != '}',
            variables_close(value@, i as int),
        decreases i,
    {
        i = i - 1;
        if last == 0 && v[i] == '}' {
            last = i + 1;
        }
        proof {
            let rest = value@.skip(i as int);
            if last > 0 {
                assert(rest[last - 1 - i] == '}');
            } else {
                assert forall|k: int| 0 <= k < rest.len() implies rest[k] != '}' by {
                    assert(v@[i + k] != '}');
                }
            }
        }
        if last == 0 && text::occurs_at(&v, &opening, i) {
            proof {
                lemma_variables_close(value@, 0, i as int);
            }
            return false;
        }
    }
    true
}

proof fn lemma_variables_close(value: Seq<char>, i: int, j: int)
    requires
        0 <= i <= j < value.len(),
        !variables_close(value, j),
    ensures
        !variables_close(value, i),
    decreases j - i,
{
    if i < j {
        lemma_variables_close(value, i + 1, j);
    }
}

fn check_value(value: &str) -> (r: bool)
    ensures
        r == value_is_safe(value@),
{
    let v = text::chars_of(value);
    if v.len() > 0 && is_quote(v[0]) {
        !text::contains(value, "${")
    } else {
        check_variables(value)
    }
}

fn is_read_as_text(name: &str, k: usize) -> (r: bool)
    ensures
        r == read_as_text(name@, k as int),
{
    text::same(name, "server_name") || text::same(name, "location") || text::same(name, "listen")
        || text::same(name, "limit_except") || text::same(name, "proxy_ignore_headers")
        || text::same(name, "rewrite") && k == 0 || text::same(name, "access_log") && k == 1
}

fn check_values(parts: &Vec<String>, name: Option<&str>) -> (r: bool)
    ensures
        r == values_are_safe(parts.deep_view(), 0, name.deep_view()),
{
    let ghost all = parts.deep_view();
    let mut k: usize = 0;
    while k < parts.len()
        invariant
            k <= parts.len(),
            all == parts.deep_view(),
            values_are_safe(all, 0, name.deep_view()) == values_are_safe(
                all,
                k as int,
                name.deep_view(),
            ),
        decreases parts.len() - k,
    {
        assert(all[k as int] == parts@[k as int]@);
        let exempt = match name {
            Some(name) => is_read_as_text(name, k),
            None => false,
        };
        if !exempt && !check_value(parts[k].as_str()) {
            return false;
        }
        k = k + 1;
    }
    true
}

fn check_address(value: &str) -> (r: bool)
    ensures
        r == address_is_safe(value@),
{
    if !text::starts_with(value, "unix:") {
        return true;
    }
    let v = text::chars_of(value);
    v.len() > 5 && width_of(v[5]) == 1
}

fn strip_opening(parts: &Vec<String>) -> (r: Option<Vec<String>>)
    ensures
        r.deep_view() == without_opening(parts.deep_view()),
{
    let ghost all = parts.deep_view();
    if parts.len() == 0 {
        return None;
    }
    assert(all[0] == parts@[0]@);
    let first = text::chars_of(parts[0].as_str());
    if first.len() == 0 || first[0] != '(' {
        return None;
    }
    let mut r = text::copy_all(parts);
    let _ = r.remove(0);
    assert(r.deep_view() =~= all.drop_first());
    if first.len() > 1 {
        let inner = text::text_of(&first, 1, first.len());
        assert(inner@ =~= all[0].drop_first());
        r.insert(0, inner);
        assert(r.deep_view() =~= all.update(0, all[0].drop_first()));
    }
    Some(r)
}

fn strip_closing(parts: &Vec<String>) -> (r: Option<Vec<String>>)
    ensures
        r.deep_view() == without_closing(parts.deep_view()),
{
    let ghost all = parts.deep_view();
    if parts.len() == 0 {
        return None;
    }
    let n: usize = parts.len() - 1;
    assert(all.last() == parts@[n as int]@);
    if !text::ends_with(parts[n].as_str(), ')') {
        return None;
    }
    let last = text::chars_of(parts[n].as_str());
    let mut r = text::copy_all(parts);
    let _ = r.pop();
    assert(r.deep_view() =~= all.drop_last());
    if last.len() > 1 {
        let inner = text::text_of(&last, 0, last.len() - 1);
        assert(inner@ =~= all.last().drop_last());
        r.push(inner);
        assert(r.deep_view() =~= all.update(n as int, all.last().drop_last()));
    }
    Some(r)
}

fn check_condition(parts: &Vec<String>) -> (r: bool)
    ensures
        r == condition_is_safe(parts.deep_view()),
{
    let inner = match strip_opening(parts) {
        Some(inner) => inner,
        None => {
            return true;
        },
    };
    let inner = match strip_closing(&inner) {
        Some(inner) => inner,
        None => {
            return true;
        },
    };
    let ghost all = inner.deep_view();
    assert(all.len() == inner.len());
    if inner.len() == 0 {
        return true;
    }
    assert(all[0] == inner@[0]@);
    let first = text::chars_of(inner[0].as_str());
    if first.len() > 0 && first[0] == '$' {
        return check_value(inner[0].as_str());
    }
    if inner.len() > 1 {
        assert(all[1] == inner@[1]@);
        check_value(inner[1].as_str())
    } else {
        false
    }
}

fn check_options(parts: &Vec<String>) -> (r: bool)
    ensures
        r == options_are_safe(parts.deep_view(), 2),
{
    let ghost all = parts.deep_view();
    proof {
        reveal_strlit("if=");
        assert(all.len() == parts.len());
    }
    let mut k: usize = 2;
    while k < parts.len()
        invariant
            2 <= k,
            k <= parts.len() || k == 2,
            all == parts.deep_view(),
            all.len() == parts.len(),
            "if="@.len() == 3,
            options_are_safe(all, 2) == options_are_safe(all, k as int),
        decreases parts.len() - k,
    {
        assert(all[k as int] == parts@[k as int]@);
        if text::starts_with(parts[k].as_str(), "if=") {
            let v = text::chars_of(parts[k].as_str());
            let value = text::text_of(&v, 3, v.len());
            assert(value@ =~= all[k as int].skip(3));
            if !check_value(value.as_str()) {
                return false;
            }
        }
        k = k + 1;
    }
    true
}

fn check_directive(name: &str, parts: &Vec<String>) -> (r: bool)
    ensures
        r == directive_is_safe(name@, parts.deep_view()),
{
    if text::same(name, "if") {
        return check_condition(parts);
    }
    if !check_values(parts, Some(name)) {
        return false;
    }
    assert(parts.deep_view().len() == parts.len());
    if text::same(name, "listen") && parts.len() > 0 {
        assert(parts.deep_view()[0] == parts@[0]@);
        if !check_address(parts[0].as_str()) {
            return false;
        }
    }
    !text::same(name, "access_log") || check_options(parts)
}

fn collect_texts(list: &Vec<Token>, from: usize) -> (r: Vec<String>)
    requires
        from <= list.len(),
    ensures
        r.deep_view() == texts(list.deep_view(), from as int),
{
    let ghost all = list.deep_view();
    let mut r: Vec<String> = Vec::new();
    let mut i: usize = from;
    assert(r.deep_view() + texts(all, from as int) =~= texts(all, from as int));
    while i < list.len()
        invariant
            from <= i <= list.len(),
            all == list.deep_view(),
            texts(all, from as int) == r.deep_view() + texts(all, i as int),
        decreases list.len() - i,
    {
        let ghost done = r.deep_view();
        assert(all[i as int] == list@[i as int].deep_view());
        match &list[i] {
            Token::Text(value) => {
                r.push(value.clone());
                assert(r.deep_view() =~= done.push(value@));
                assert(done + (seq![value@] + texts(all, i + 1)) =~= r.deep_view() + texts(
                    all,
                    i + 1,
                ));
            },
            Token::Mark => {
                assert(done + Seq::<Seq<char>>::empty() =~= done);
                return r;
            },
        }
        i = i + 1;
    }
    assert(r.deep_view() + texts(all, i as int) =~= r.deep_view());
    r
}

fn find_map(list: &Vec<Token>) -> (r: bool)
    ensures
        r == has_map(list.deep_view()),
{
    let ghost all = list.deep_view();
    let mut i: usize = 0;
    while i < list.len()
        invariant
            i <= list.len(),
            all == list.deep_view(),
            forall|k: int| 0 <= k < i ==> #[trigger] all[k] != TokenView::Text("map"@),
        decreases list.len() - i,
    {
        assert(all[i as int] == list@[i as int].deep_view());
        if let Token::Text(value) = &list[i] {
            if text::same(value.as_str(), "map") {
                assert(all[i as int] == TokenView::Text("map"@));
                return true;
            }
        }
        i = i + 1;
    }
    false
}

/// Whether a text is one that the parser answers.
pub fn can_parse(source: &str) -> (r: bool)
    ensures
        r == parser_takes(source@),
{
    if text::contains_char(source, '#') {
        return false;
    }
    let v = text::chars_of(source);
    let list = match read_tokens(&v) {
        Some(list) => list,
        None => {
            return false;
        },
    };
    let ghost all = list.deep_view();
    let mapped = find_map(&list);
    let mut head: bool = true;
    let mut n: usize = 0;
    while n < list.len()
        invariant
            n <= list.len(),
            all == list.deep_view(),
            tokens(source@, 0) == Some(all),
            mapped == has_map(all),
            head == (n == 0 || all[n - 1] is Mark),
            forall|k: int| 0 <= k < n ==> #[trigger] place_is_safe(all, k),
        decreases list.len() - n,
    {
        assert(all[n as int] == list@[n as int].deep_view());
        match &list[n] {
            Token::Mark => {
                head = true;
            },
            Token::Text(name) => {
                if head {
                    let parts = collect_texts(&list, n + 1);
                    if !check_directive(name.as_str(), &parts) || mapped && !check_values(
                        &parts,
                        None,
                    ) {
                        proof {
                            assert(0 <= n < all.len());
                            assert(!place_is_safe(tokens(source@, 0)->0, n as int));
                        }
                        return false;
                    }
                }
                head = false;
            },
        }
        assert(place_is_safe(all, n as int));
        n = n + 1;
    }
    true
}

// ---------------------------------------------------------------------------
// The parser
// ---------------------------------------------------------------------------

/// The type `nginx_config::ast::Directive`, carried through unread.
#[verifier::external_type_specification]
#[verifier::external_body]
pub struct ExDirective(ast::Directive);

/// The type `nginx_config::ast::ServerName`, carried through unread.
#[verifier::external_type_specification]
#[verifier::external_body]
pub struct ExServerName(ast::ServerName);

/// The type `nginx_config::ast::Address`, carried through unread.
#[verifier::external_type_specification]
#[verifier::external_body]
pub struct ExAddress(ast::Address);

/// The type `nginx_config::ast::LocationPattern`, carried through unread.
#[verifier::external_type_specification]
#[verifier::external_body]
pub struct ExLocationPattern(ast::LocationPattern);

/// What `nginx_config::parse_main` makes of a text: the directives of the tree
/// that it returns, or the words of its error.
pub uninterp spec fn parsed(source: Seq<char>) -> Result<Seq<ItemView>, Seq<char>>;

/// Calls `nginx_config::parse_main`. Claimed of it: on a text that it takes, it
/// returns, and what it returns depends on that text alone. The tree is
/// converted directive by directive; directives that the search does not look
/// at become [`NginxItem::Other`]. On an error the parser also writes a line
/// to the standard output. Blocks are read recursively, so how deep they may be
/// nested is a matter of the stack.
#[verifier::external_body]
pub(crate) fn parse_main(source: &str) -> (r: Result<Vec<NginxItem>, String>)
    requires
        parser_takes(source@),
    ensures
        match r {
            Ok(items) => parsed(source@) == Ok::<_, Seq<char>>(items_view(items@)),
            Err(message) => parsed(source@) == Err::<Seq<ItemView>, _>(message@),
        },
{
    nginx_config::parse_main(source)
        .map(|main| convert_items(&main.directives))
        .map_err(|err| err.to_string())
}

/// Converts a list of directives.
#[verifier::external_body]
fn convert_items(directives: &Vec<ast::Directive>) -> Vec<NginxItem> {
    directives.iter().map(convert_item).collect()
}

/// Converts a directive; the value of a `proxy_pass` is written out by its
/// `Display`.
#[verifier::external_body]
fn convert_item(directive: &ast::Directive) -> NginxItem {
    match &directive.item {
        ast::Item::Http(http) => NginxItem::Http(convert_items(&http.directives)),
        ast::Item::Server(server) => NginxItem::Server(convert_items(&server.directives)),
        ast::Item::Location(location) => NginxItem::Location(
            convert_pattern(&location.pattern),
            convert_items(&location.directives),
        ),
        ast::Item::ServerName(names) => NginxItem::ServerName(names.iter().map(convert_name).collect()),
        ast::Item::Listen(listen) => NginxItem::Listen(convert_address(&listen.address)),
        ast::Item::ProxyPass(value) => NginxItem::ProxyPass(value.to_string()),
        _ => NginxItem::Other,
    }
}

/// Converts a server name.
#[verifier::external_body]
fn convert_name(name: &ast::ServerName) -> NginxName {
    match name {
        ast::ServerName::Exact(value) => NginxName::Exact(value.clone()),
        ast::ServerName::Suffix(value) => NginxName::Suffix(value.clone()),
        ast::ServerName::StarSuffix(value) => NginxName::StarSuffix(value.clone()),
        ast::ServerName::StarPrefix(value) => NginxName::StarPrefix(value.clone()),
        ast::ServerName::Regex(value) => NginxName::Regex(value.clone()),
    }
}

/// Converts an address; a socket address and a path are written out by their
/// `Display`.
#[verifier::external_body]
fn convert_address(address: &ast::Address) -> NginxAddress {
    match address {
        ast::Address::Ip(address) => NginxAddress::Ip(address.to_string()),
        ast::Address::StarPort(port) => NginxAddress::StarPort(*port),
        ast::Address::Port(port) => NginxAddress::Port(*port),
        ast::Address::Unix(path) => NginxAddress::Unix(path.display().to_string()),
    }
}

/// Converts a location pattern.
#[verifier::external_body]
fn convert_pattern(pattern: &ast::LocationPattern) -> NginxPattern {
    match pattern {
        ast::LocationPattern::Prefix(value) => NginxPattern::Prefix(value.clone()),
        ast::LocationPattern::Exact(value) => NginxPattern::Exact(value.clone()),
        ast::LocationPattern::FinalPrefix(value) => NginxPattern::FinalPrefix(value.clone()),
        ast::LocationPattern::Regex(value) => NginxPattern::Regex(value.clone()),
        ast::LocationPattern::RegexInsensitive(value) => NginxPattern::RegexInsensitive(value.clone()),
        ast::LocationPattern::Named(value) => NginxPattern::Named(value.clone()),
    }
}

// ---------------------------------------------------------------------------
// How names, addresses and locations are written
// ---------------------------------------------------------------------------

/// The location `/` is that of the prefix `/` alone: a pattern of another sort
/// is written with a sign in front of it.
pub proof fn only_a_prefix_is_the_root(pattern: PatternView)
    ensures
        location_text(pattern) == "/"@ <==> pattern == PatternView::Prefix("/"@),
        pattern matches PatternView::Prefix(value) ==> location_text(pattern) == value,
        pattern matches PatternView::Exact(value) ==> location_text(pattern) == "= "@ + value,
        pattern matches PatternView::FinalPrefix(value) ==> location_text(pattern) == "^~ "@
            + value,
        pattern matches PatternView::Regex(value) ==> location_text(pattern) == "~ "@ + value,
        pattern matches PatternView::RegexInsensitive(value) ==> location_text(pattern) == "~* "@
            + value,
        pattern matches PatternView::Named(value) ==> location_text(pattern) == "@"@ + value,
{
    reveal_strlit("/");
    reveal_strlit("= ");
    reveal_strlit("^~ ");
    reveal_strlit("~ ");
    reveal_strlit("~* ");
    reveal_strlit("@");
    if location_text(pattern) == "/"@ {
        assert(location_text(pattern)[0] == '/');
    }
}

/// An address is written with its port, where it has one, and a socket with its
/// path.
pub proof fn addresses_are_written_with_their_ports(address: AddressView)
    ensures
        address matches AddressView::Port(port) ==> number::read_number(
            address_text(address),
            0xffff,
        ) == Ok::<nat, number::ParseIntError>(port as nat),
        address matches AddressView::StarPort(port) ==> {
            &&& text::starts(address_text(address), "*:"@)
            &&& number::read_number(address_text(address).skip(2), 0xffff) == Ok::<
                nat,
                number::ParseIntError,
            >(port as nat)
        },
        address matches AddressView::Ip(value) ==> address_text(address) == value,
        address matches AddressView::Unix(path) ==> address_text(address) == "unix:"@ + path,
{
    reveal_strlit("*:");
    if let AddressView::Port(port) = address {
        number::written_number_reads_back(port as nat, 0xffff);
    }
    if let AddressView::StarPort(port) = address {
        let digits = number::decimal(port as nat);
        number::written_number_reads_back(port as nat, 0xffff);
        text::text_occurs_where_it_stands(Seq::empty(), "*:"@, digits);
        assert(("*:"@ + digits).skip(2) =~= digits);
    }
}

/// A name is written as it was configured: with the star at the end where it
/// stands, and with the sign of an expression.
pub proof fn names_are_written_as_configured(value: Seq<char>)
    ensures
        server_name_text(ServerNameView::Exact(value)) == value,
        server_name_text(ServerNameView::Suffix(value)) == "."@ + value,
        server_name_text(ServerNameView::StarSuffix(value)) == "*"@ + server_name_text(
            ServerNameView::Suffix(value),
        ),
        server_name_text(ServerNameView::StarPrefix(value)) == value + ".*"@,
        server_name_text(ServerNameView::Regex(value)) == "~"@ + value,
{
    reveal_strlit("*");
    reveal_strlit(".");
    reveal_strlit("*.");
    assert("*."@ + value =~= "*"@ + ("."@ + value));
}

// ---------------------------------------------------------------------------
// Plain sources
// ---------------------------------------------------------------------------

/// Whether a text is plain: ASCII, without quotes, variables, brackets and
/// comments.
pub open spec fn plain(s: Seq<char>) -> bool {
    forall|k: int|
        0 <= k < s.len() ==> {
            let c = #[trigger] s[k];
            &&& (c as u32) < 0x80
            &&& c != '"' && c != '\'' && c != '$' && c != '(' && c != '#'
        }
}

/// Whether a token is a part of `s`.
pub open spec fn taken_from(token: TokenView, s: Seq<char>) -> bool {
    token matches TokenView::Text(value) ==> exists|a: int, b: int|
        0 <= a <= b <= s.len() && value == #[trigger] s.subrange(a, b)
}

proof fn lemma_plain_size(s: Seq<char>)
    requires
        plain(s),
    ensures
        size(s) == s.len(),
    decreases s.len(),
{
    if s.len() > 0 {
        assert(plain(s.drop_last())) by {
            assert forall|k: int| 0 <= k < s.drop_last().len() implies {
                let c = #[trigger] s.drop_last()[k];
                &&& (c as u32) < 0x80
                &&& c != '"' && c != '\'' && c != '$' && c != '(' && c != '#'
            } by {
                assert(s.drop_last()[k] == s[k]);
            }
        }
        lemma_plain_size(s.drop_last());
        assert((s[s.len() - 1] as u32) < 0x80);
    }
}

proof fn lemma_plain_part(s: Seq<char>, a: int, b: int)
    requires
        plain(s),
        0 <= a <= b <= s.len(),
    ensures
        plain(s.subrange(a, b)),
{
    let t = s.subrange(a, b);
    assert forall|k: int| 0 <= k < t.len() implies {
        let c = #[trigger] t[k];
        &&& (c as u32) < 0x80
        &&& c != '"' && c != '\'' && c != '$' && c != '(' && c != '#'
    } by {
        assert(t[k] == s[a + k]);
    }
}

proof fn lemma_plain_tokens(s: Seq<char>, i: int)
    requires
        plain(s),
        0 <= i <= s.len(),
    ensures
        tokens(s, i) is Some,
        forall|n: int|
            0 <= n < tokens(s, i)->0.len() ==> taken_from(#[trigger] tokens(s, i)->0[n], s),
    decreases s.len() - i,
{
    let start = past_blanks(s, i);
    lemma_past_blanks(s, i);
    if start < s.len() {
        let c = s[start];
        lemma_piece(s, start);
        assert(c != '"' && c != '\'');
        let (token, end) = if mark(c) {
            (TokenView::Mark, start + 1)
        } else {
            let end = word_stop(s, start + 1, c);
            lemma_word_stop(s, start + 1, c);
            let word = s.subrange(start, end);
            lemma_plain_part(s, start, end);
            lemma_plain_size(word);
            assert(cut(word) == Some(word));
            (TokenView::Text(word), end)
        };
        assert(piece(s, start) == Piece::Whole(token, end));
        lemma_plain_tokens(s, end);
        let rest = tokens(s, end)->0;
        let all = tokens(s, i)->0;
        assert(tokens(s, i) == Some(seq![token] + rest));
        assert forall|n: int| 0 <= n < all.len() implies taken_from(#[trigger] all[n], s) by {
            if n > 0 {
                assert(all[n] == rest[n - 1]);
            }
        }
    }
}

proof fn lemma_plain_value(value: Seq<char>)
    requires
        plain(value),
    ensures
        value_is_safe(value),
{
    lemma_plain_variables(value, 0);
    if value.len() > 0 {
        assert(value[0] != '"' && value[0] != '\'');
    }
}

proof fn lemma_plain_variables(value: Seq<char>, i: int)
    requires
        plain(value),
        0 <= i,
    ensures
        variables_close(value, i),
    decreases value.len() - i,
{
    if i < value.len() {
        reveal_strlit("${");
        if text::occurs(value, "${"@, i) {
            assert(value.subrange(i, i + 2)[0] == value[i]);
            assert(value[i] != '$');
        }
        lemma_plain_variables(value, i + 1);
    }
}

/// Whether a text is plain and does not begin like the address of a socket.
spec fn plain_part(value: Seq<char>) -> bool {
    plain(value) && !text::starts(value, "unix:"@)
}

proof fn lemma_plain_texts(list: Seq<TokenView>, n: int)
    requires
        forall|k: int|
            0 <= k < list.len() ==> (#[trigger] list[k] matches TokenView::Text(value)
                ==> plain_part(value)),
        0 <= n,
    ensures
        forall|k: int| 0 <= k < texts(list, n).len() ==> plain_part(#[trigger] texts(list, n)[k]),
    decreases list.len() - n,
{
    if n < list.len() && list[n] is Text {
        lemma_plain_texts(list, n + 1);
        let all = texts(list, n);
        let rest = texts(list, n + 1);
        assert forall|k: int| 0 <= k < all.len() implies plain_part(#[trigger] all[k]) by {
            if k > 0 {
                assert(all[k] == rest[k - 1]);
            }
        }
    }
}

proof fn lemma_plain_values(parts: Seq<Seq<char>>, k: int, name: Option<Seq<char>>)
    requires
        forall|i: int| 0 <= i < parts.len() ==> plain_part(#[trigger] parts[i]),
        0 <= k,
    ensures
        values_are_safe(parts, k, name),
        options_are_safe(parts, k),
    decreases parts.len() - k,
{
    if k < parts.len() {
        assert(plain_part(parts[k]));
        lemma_plain_value(parts[k]);
        if text::starts(parts[k], "if="@) {
            reveal_strlit("if=");
            let rest = parts[k].skip(3);
            assert(rest =~= parts[k].subrange(3, parts[k].len() as int));
            lemma_plain_part(parts[k], 3, parts[k].len() as int);
            lemma_plain_value(rest);
        }
        lemma_plain_values(parts, k + 1, name);
    }
}

/// A plain source is taken by the parser, whatever it says: ASCII text without
/// quotes, variables, opening brackets, comments and addresses of sockets.
pub proof fn plain_source_is_taken(source: Seq<char>)
    requires
        plain(source),
        !text::contains_text(source, "unix:"@),
    ensures
        parser_takes(source),
{
    assert(!source.contains('#')) by {
        assert forall|k: int| 0 <= k < source.len() implies source[k] != '#' by {}
    }
    lemma_plain_tokens(source, 0);
    let list = tokens(source, 0)->0;
    assert forall|k: int| 0 <= k < list.len() implies (#[trigger] list[k] matches TokenView::Text(
        value,
    ) ==> plain_part(value)) by {
        if let TokenView::Text(value) = list[k] {
            assert(taken_from(list[k], source));
            let (a, b) = choose|a: int, b: int|
                0 <= a <= b <= source.len() && value == #[trigger] source.subrange(a, b);
            lemma_plain_part(source, a, b);
            if text::starts(value, "unix:"@) {
                let n = "unix:"@.len() as int;
                assert(source.subrange(a, a + n) =~= value.take(n));
                assert(text::occurs(source, "unix:"@, a));
            }
        }
    }
    assert forall|n: int| 0 <= n < list.len() implies #[trigger] place_is_safe(list, n) by {
        if heads(list, n) {
            let name = list[n]->Text_0;
            let parts = texts(list, n + 1);
            lemma_plain_texts(list, n + 1);
            lemma_plain_values(parts, 0, Some(name));
            lemma_plain_values(parts, 0, None);
            lemma_plain_values(parts, 2, None);
            if parts.len() > 0 {
                assert(plain_part(parts[0]));
                if parts[0].len() > 0 {
                    assert(parts[0][0] != '(');
                }
            }
            assert(without_opening(parts) is None);
        }
    }
}

} // verus!
