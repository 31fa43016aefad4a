//! Text primitives: the whitespace, letter-case, splitting and number reading rules on which
//! every log format and feed parser of this crate rests.
//!
//! A text is modelled as the sequence of its characters.
use vstd::prelude::*;

verus! {

/// `String::push` appends one character.
pub assume_specification[ String::push ](s: &mut String, c: char)
    ensures
        final(s)@ == old(s)@.push(c),
;

// ---------------------------------------------------------------------------------------------
// Characters
// ---------------------------------------------------------------------------------------------
/// The characters with the Unicode property White_Space.
pub open spec fn is_space(c: char) -> bool {
    ||| '\u{9}' <= c <= '\u{d}'
    ||| c == ' '
    ||| c == '\u{85}'
    ||| c == '\u{a0}'
    ||| c == '\u{1680}'
    ||| '\u{2000}' <= c <= '\u{200a}'
    ||| c == '\u{2028}'
    ||| c == '\u{2029}'
    ||| c == '\u{202f}'
    ||| c == '\u{205f}'
    ||| c == '\u{3000}'
}

pub open spec fn is_digit(c: char) -> bool {
    '0' <= c <= '9'
}

pub open spec fn is_letter(c: char) -> bool {
    'A' <= c <= 'Z' || 'a' <= c <= 'z'
}

/// The value of a decimal digit.
pub open spec fn digit_value(c: char) -> nat {
    (c as int - '0' as int) as nat
}

pub open spec fn digit_char(d: nat) -> char {
    ('0' as int + d) as char
}

/// `c` with an ASCII capital made small.
pub open spec fn lower_char(c: char) -> char {
    if 'A' <= c <= 'Z' {
        (c as int + 32) as char
    } else {
        c
    }
}

/// `c` with an ASCII small letter made capital.
pub open spec fn upper_char(c: char) -> char {
    if 'a' <= c <= 'z' {
        (c as int - 32) as char
    } else {
        c
    }
}

pub open spec fn lower(s: Seq<char>) -> Seq<char> {
    Seq::new(s.len(), |i: int| lower_char(s[i]))
}

pub open spec fn upper(s: Seq<char>) -> Seq<char> {
    Seq::new(s.len(), |i: int| upper_char(s[i]))
}

/// The two texts differ at most in the case of ASCII letters.
pub open spec fn same_letters(a: Seq<char>, b: Seq<char>) -> bool {
    lower(a) == lower(b)
}

/// A set of characters that the trimming functions strip.
#[derive(Clone, Copy)]
pub enum CharClass {
    /// Unicode whitespace.
    Space,
    /// A full stop or a comma.
    PointOrComma,
    /// The letter that begins a decimal exponent.
    Exponent,
    /// One given character.
    Is(char),
}

impl CharClass {
    pub open spec fn has(self, c: char) -> bool {
        match self {
            CharClass::Space => is_space(c),
            CharClass::PointOrComma => c == '.' || c == ',',
            CharClass::Exponent => c == 'e' || c == 'E',
            CharClass::Is(d) => c == d,
        }
    }

    pub fn contains(self, c: char) -> (r: bool)
        ensures
            r == self.has(c),
    {
        match self {
            CharClass::Space => space(c),
            CharClass::PointOrComma => c == '.' || c == ',',
            CharClass::Exponent => c == 'e' || c == 'E',
            CharClass::Is(d) => c == d,
        }
    }
}

pub fn space(c: char) -> (r: bool)
    ensures
        r == is_space(c),
{
    ('\u{9}' <= c && c <= '\u{d}') || c == ' ' || c == '\u{85}' || c == '\u{a0}' || c == '\u{1680}'
        || ('\u{2000}' <= c && c <= '\u{200a}') || c == '\u{2028}' || c == '\u{2029}' || c
        == '\u{202f}' || c == '\u{205f}' || c == '\u{3000}'
}

pub fn digit(c: char) -> (r: bool)
    ensures
        r == is_digit(c),
{
    '0' <= c && c <= '9'
}

pub fn letter(c: char) -> (r: bool)
    ensures
        r == is_letter(c),
{
    ('A' <= c && c <= 'Z') || ('a' <= c && c <= 'z')
}

fn to_lower_char(c: char) -> (r: char)
    ensures
        r == lower_char(c),
{
    if 'A' <= c && c <= 'Z' {
        (c as u8 + 32) as char
    } else {
        c
    }
}

fn to_upper_char(c: char) -> (r: char)
    ensures
        r == upper_char(c),
{
    if 'a' <= c && c <= 'z' {
        (c as u8 - 32) as char
    } else {
        c
    }
}

// ---------------------------------------------------------------------------------------------
// Characters of a text, and back
// ---------------------------------------------------------------------------------------------
pub fn chars_of(s: &str) -> (r: Vec<char>)
    ensures
        r@ == s@,
{
    let mut out: Vec<char> = Vec::new();
    for c in it: s.chars()
        invariant
            it.seq() == s@,
            out@ == s@.take(it.index() as int),
    {
        out.push(c);
    }
    assert(s@.take(s@.len() as int) =~= s@);
    out
}

/// The characters `from..to` of `v` as a string.
pub fn string_between(v: &Vec<char>, from: usize, to: usize) -> (r: String)
    requires
        from <= to <= v@.len(),
    ensures
        r@ == v@.subrange(from as int, to as int),
{
    let mut out = String::new();
    let mut i: usize = from;
    while i < to
        invariant
            from <= i <= to <= v@.len(),
            out@ == v@.subrange(from as int, i as int),
        decreases to - i,
    {
        out.push(v[i]);
        i = i + 1;
        assert(v@.subrange(from as int, i as int) =~= v@.subrange(from as int, i - 1).push(
            v@[i - 1],
        ));
    }
    out
}

pub fn string_of(v: &Vec<char>) -> (r: String)
    ensures
        r@ == v@,
{
    assert(v@.subrange(0, v@.len() as int) =~= v@);
    string_between(v, 0, v.len())
}

/// Appends `t` to `s`.
pub fn push_text(s: &mut String, t: &str)
    ensures
        final(s)@ == old(s)@ + t@,
{
    let chars = chars_of(t);
    let ghost start = s@;
    let mut i: usize = 0;
    while i < chars.len()
        invariant
            i <= chars@.len(),
            s@ == start + chars@.take(i as int),
        decreases chars.len() - i,
    {
        s.push(chars[i]);
        i = i + 1;
        assert(start + chars@.take(i as int) =~= (start + chars@.take(i - 1)).push(chars@[i - 1]));
    }
    assert(chars@.take(chars@.len() as int) =~= chars@);
}

pub fn owned(s: &str) -> (r: String)
    ensures
        r@ == s@,
{
    string_of(&chars_of(s))
}

/// `a` followed by `b`.
pub fn joined(a: &str, b: &str) -> (r: String)
    ensures
        r@ == a@ + b@,
{
    let mut out = owned(a);
    push_text(&mut out, b);
    out
}

pub fn same_chars(a: &Vec<char>, b: &Vec<char>) -> (r: bool)
    ensures
        r == (a@ == b@),
{
    if a.len() != b.len() {
        return false;
    }
    let mut i: usize = 0;
    while i < a.len()
        invariant
            i <= a@.len(),
            a@.len() == b@.len(),
            forall|j: int| 0 <= j < i ==> a@[j] == b@[j],
        decreases a.len() - i,
    {
        if a[i] != b[i] {
            return false;
        }
        i = i + 1;
    }
    assert(a@ =~= b@);
    true
}

/// Whether the two texts are equal.
pub fn same(a: &str, b: &str) -> (r: bool)
    ensures
        r == (a@ == b@),
{
    same_chars(&chars_of(a), &chars_of(b))
}

pub fn is_blank(s: &str) -> (r: bool)
    ensures
        r == (trimmed(s@).len() == 0),
{
    let t = trim(s);
    chars_of(t.as_str()).len() == 0
}

// ---------------------------------------------------------------------------------------------
// Optional texts and lists of texts
// ---------------------------------------------------------------------------------------------
pub open spec fn opt_text(o: Option<String>) -> Option<Seq<char>> {
    match o {
        Some(s) => Some(s@),
        None => None,
    }
}

pub open spec fn opt_str(o: Option<&str>) -> Option<Seq<char>> {
    match o {
        Some(s) => Some(s@),
        None => None,
    }
}

pub open spec fn texts(v: Seq<String>) -> Seq<Seq<char>> {
    Seq::new(v.len(), |i: int| v[i]@)
}

pub fn copy_opt(o: &Option<String>) -> (r: Option<String>)
    ensures
        opt_text(r) == opt_text(*o),
        r == *o,
{
    match o {
        Some(s) => Some(s.clone()),
        None => None,
    }
}

pub fn same_opt(a: &Option<String>, b: &Option<String>) -> (r: bool)
    ensures
        r == (opt_text(*a) == opt_text(*b)),
{
    match (a, b) {
        (Some(x), Some(y)) => same(x.as_str(), y.as_str()),
        (None, None) => true,
        _ => false,
    }
}

/// A copy of a list of texts.
pub fn copy_texts(v: &Vec<String>) -> (r: Vec<String>)
    ensures
        texts(r@) == texts(v@),
{
    let mut out: Vec<String> = Vec::new();
    let mut i: usize = 0;
    while i < v.len()
        invariant
            i <= v@.len(),
            out@.len() == i,
            forall|j: int| 0 <= j < i ==> (#[trigger] out@[j])@ == v@[j]@,
        decreases v.len() - i,
    {
        out.push(v[i].clone());
        i = i + 1;
    }
    assert(texts(out@) =~= texts(v@));
    out
}

/// The texts one behind the other, with `separator` between them.
pub open spec fn joining(parts: Seq<Seq<char>>, separator: Seq<char>) -> Seq<char>
    decreases parts.len(),
{
    if parts.len() == 0 {
        Seq::empty()
    } else if parts.len() == 1 {
        parts[0]
    } else {
        joining(parts.drop_last(), separator) + separator + parts.last()
    }
}

pub fn join(parts: &Vec<&'static str>, separator: &str) -> (r: String)
    ensures
        r@ == joining(Seq::new(parts@.len(), |i: int| parts@[i]@), separator@),
{
    let ghost all = Seq::new(parts@.len(), |i: int| parts@[i]@);
    let mut out = String::new();
    let mut i: usize = 0;
    assert(out@ =~= joining(all.take(0), separator@));
    while i < parts.len()
        invariant
            i <= parts@.len(),
            all == Seq::new(parts@.len(), |i: int| parts@[i]@),
            out@ == joining(all.take(i as int), separator@),
        decreases parts.len() - i,
    {
        assert(all.take(i + 1).drop_last() =~= all.take(i as int));
        assert(all.take(i + 1).last() == parts@[i as int]@);
        if i > 0 {
            push_text(&mut out, separator);
        }
        push_text(&mut out, parts[i]);
        i = i + 1;
        assert(out@ =~= joining(all.take(i as int), separator@));
    }
    assert(all.take(all.len() as int) =~= all);
    out
}

// ---------------------------------------------------------------------------------------------
// Letter case
// ---------------------------------------------------------------------------------------------
pub fn to_upper(s: &str) -> (r: String)
    ensures
        r@ == upper(s@),
{
    let v = chars_of(s);
    let mut out = String::new();
    let mut i: usize = 0;
    while i < v.len()
        invariant
            i <= v@.len(),
            v@ == s@,
            out@.len() == i,
            forall|j: int| 0 <= j < i ==> out@[j] == upper_char(s@[j]),
        decreases v.len() - i,
    {
        out.push(to_upper_char(v[i]));
        i = i + 1;
    }
    assert(out@ =~= upper(s@));
    out
}

pub fn to_lower(s: &str) -> (r: String)
    ensures
        r@ == lower(s@),
{
    let v = chars_of(s);
    let mut out = String::new();
    let mut i: usize = 0;
    while i < v.len()
        invariant
            i <= v@.len(),
            v@ == s@,
            out@.len() == i,
            forall|j: int| 0 <= j < i ==> out@[j] == lower_char(s@[j]),
        decreases v.len() - i,
    {
        out.push(to_lower_char(v[i]));
        i = i + 1;
    }
    assert(out@ =~= lower(s@));
    out
}

/// Whether the texts are equal up to the case of ASCII letters.
pub fn same_ignoring_case(a: &str, b: &str) -> (r: bool)
    ensures
        r == same_letters(a@, b@),
{
    same(to_lower(a).as_str(), to_lower(b).as_str())
}

// ---------------------------------------------------------------------------------------------
// Trimming
// ---------------------------------------------------------------------------------------------
/// `s` without its leading characters of `class`.
pub open spec fn strip_start(s: Seq<char>, class: CharClass) -> Seq<char>
    decreases s.len(),
{
    if s.len() > 0 && class.has(s[0]) {
        strip_start(s.drop_first(), class)
    } else {
        s
    }
}

/// `s` without its trailing characters of `class`.
pub open spec fn strip_end(s: Seq<char>, class: CharClass) -> Seq<char>
    decreases s.len(),
{
    if s.len() > 0 && class.has(s.last()) {
        strip_end(s.drop_last(), class)
    } else {
        s
    }
}

/// `s` without whitespace at either end.
pub open spec fn trimmed(s: Seq<char>) -> Seq<char> {
    strip_end(strip_start(s, CharClass::Space), CharClass::Space)
}

/// The number of leading characters of `class` in `v`, counted from `from`.
fn skip_class(v: &Vec<char>, from: usize, class: CharClass) -> (r: usize)
    requires
        from <= v@.len(),
    ensures
        from <= r <= v@.len(),
        strip_start(v@.skip(from as int), class) == v@.skip(r as int),
        forall|j: int| from <= j < r ==> class.has(v@[j]),
        r < v@.len() ==> !class.has(v@[r as int]),
{
    let mut i: usize = from;
    while i < v.len() && class.contains(v[i])
        invariant
            from <= i <= v@.len(),
            strip_start(v@.skip(from as int), class) == strip_start(v@.skip(i as int), class),
            forall|j: int| from <= j < i ==> class.has(v@[j]),
        decreases v.len() - i,
    {
        assert(v@.skip(i as int).drop_first() =~= v@.skip(i + 1));
        i = i + 1;
    }
    i
}

/// The end of `v[from..to]` once its trailing characters of `class` are cut.
fn skip_class_back(v: &Vec<char>, from: usize, to: usize, class: CharClass) -> (r: usize)
    requires
        from <= to <= v@.len(),
    ensures
        from <= r <= to,
        strip_end(v@.subrange(from as int, to as int), class) == v@.subrange(from as int, r as int),
{
    let mut i: usize = to;
    while from < i && class.contains(v[i - 1])
        invariant
            from <= i <= to <= v@.len(),
            strip_end(v@.subrange(from as int, to as int), class) == strip_end(
                v@.subrange(from as int, i as int),
                class,
            ),
        decreases i,
    {
        assert(v@.subrange(from as int, i as int).drop_last() =~= v@.subrange(from as int, i - 1));
        assert(v@.subrange(from as int, i as int).last() == v@[i - 1]);
        i = i - 1;
    }
    i
}

/// `s` without the characters of `class` at either end.
pub fn strip(s: &str, class: CharClass) -> (r: String)
    ensures
        r@ == strip_end(strip_start(s@, class), class),
{
    let v = chars_of(s);
    assert(v@.skip(0) =~= v@);
    let from = skip_class(&v, 0, class);
    assert(v@.skip(from as int) =~= v@.subrange(from as int, v@.len() as int));
    let to = skip_class_back(&v, from, v.len(), class);
    string_between(&v, from, to)
}

pub fn strip_left(s: &str, class: CharClass) -> (r: String)
    ensures
        r@ == strip_start(s@, class),
{
    let v = chars_of(s);
    assert(v@.skip(0) =~= v@);
    let from = skip_class(&v, 0, class);
    assert(v@.skip(from as int) =~= v@.subrange(from as int, v@.len() as int));
    string_between(&v, from, v.len())
}

pub fn strip_right(s: &str, class: CharClass) -> (r: String)
    ensures
        r@ == strip_end(s@, class),
{
    let v = chars_of(s);
    assert(v@.subrange(0, v@.len() as int) =~= v@);
    let to = skip_class_back(&v, 0, v.len(), class);
    string_between(&v, 0, to)
}

pub fn trim(s: &str) -> (r: String)
    ensures
        r@ == trimmed(s@),
{
    strip(s, CharClass::Space)
}

/// The text trimmed and in capitals.
pub fn trim_upper(s: &str) -> (r: String)
    ensures
        r@ == upper(trimmed(s@)),
{
    to_upper(trim(s).as_str())
}

// ---------------------------------------------------------------------------------------------
// Words and pieces
// ---------------------------------------------------------------------------------------------
/// The number of characters before the first one of `class`.
pub open spec fn span(s: Seq<char>, class: CharClass) -> nat
    decreases s.len(),
{
    if s.len() > 0 && !class.has(s[0]) {
        span(s.drop_first(), class) + 1
    } else {
        0
    }
}

pub proof fn lemma_span_bound(s: Seq<char>, class: CharClass)
    ensures
        span(s, class) <= s.len(),
        forall|j: int| 0 <= j < span(s, class) ==> !class.has(#[trigger] s[j]),
        span(s, class) < s.len() ==> class.has(s[span(s, class) as int]),
    decreases s.len(),
{
    if s.len() > 0 && !class.has(s[0]) {
        lemma_span_bound(s.drop_first(), class);
        let n = span(s.drop_first(), class);
        assert forall|j: int| 0 <= j < n + 1 implies !class.has(#[trigger] s[j]) by {
            if j > 0 {
                assert(s[j] == s.drop_first()[j - 1]);
            }
        }
        if n + 1 < s.len() {
            assert(s[n as int + 1] == s.drop_first()[n as int]);
        }
    }
}

pub proof fn lemma_strip_start_len(s: Seq<char>, class: CharClass)
    ensures
        strip_start(s, class).len() <= s.len(),
        strip_start(s, class).len() > 0 ==> !class.has(strip_start(s, class)[0]),
    decreases s.len(),
{
    if s.len() > 0 && class.has(s[0]) {
        lemma_strip_start_len(s.drop_first(), class);
    }
}

/// The maximal runs of characters other than whitespace, in order.
pub open spec fn words(s: Seq<char>) -> Seq<Seq<char>>
    decreases s.len(),
{
    let t = strip_start(s, CharClass::Space);
    if t.len() == 0 {
        Seq::empty()
    } else {
        let n = span(t, CharClass::Space);
        proof {
            lemma_strip_start_len(s, CharClass::Space);
            lemma_span_bound(t, CharClass::Space);
        }
        seq![t.take(n as int)] + words(t.skip(n as int))
    }
}

/// The number of characters of `v` from `from` on before the first one of `class`.
pub fn find_class(v: &Vec<char>, from: usize, class: CharClass) -> (r: usize)
    requires
        from <= v@.len(),
    ensures
        from <= r <= v@.len(),
        r - from == span(v@.skip(from as int), class),
{
    let mut i: usize = from;
    while i < v.len() && !class.contains(v[i])
        invariant
            from <= i <= v@.len(),
            span(v@.skip(from as int), class) == (i - from) + span(v@.skip(i as int), class),
        decreases v.len() - i,
    {
        assert(v@.skip(i as int).drop_first() =~= v@.skip(i + 1));
        i = i + 1;
    }
    i
}

/// The whitespace-separated words of `s`.
pub fn split_words(s: &str) -> (r: Vec<String>)
    ensures
        texts(r@) == words(s@),
{
    let v = chars_of(s);
    let mut out: Vec<String> = Vec::new();
    assert(v@.skip(0) =~= v@);
    assert(texts(out@) + words(v@) =~= words(v@));
    let mut i: usize = skip_class(&v, 0, CharClass::Space);
    proof {
        lemma_strip_idem(v@, CharClass::Space);
        lemma_words_strip(v@);
    }
    while i < v.len()
        invariant
            i <= v@.len(),
            v@ == s@,
            i < v@.len() ==> !is_space(v@[i as int]),
            texts(out@) + words(v@.skip(i as int)) == words(s@),
        decreases v.len() - i,
    {
        let ghost rest = v@.skip(i as int);
        assert(rest[0] == v@[i as int]);
        assert(strip_start(rest, CharClass::Space) == rest);
        let end = find_class(&v, i, CharClass::Space);
        proof {
            lemma_span_bound(rest, CharClass::Space);
        }
        let n: usize = end - i;
        assert(n > 0);
        let word = string_between(&v, i, end);
        assert(word@ =~= rest.take(n as int));
        let ghost before = texts(out@);
        out.push(word);
        assert(texts(out@) =~= before.push(word@));
        let next = skip_class(&v, end, CharClass::Space);
        assert(rest.skip(n as int) =~= v@.skip(end as int));
        proof {
            lemma_words_strip(v@.skip(end as int));
            assert(before + (seq![word@] + words(v@.skip(end as int))) =~= texts(out@) + words(
                v@.skip(next as int),
            ));
        }
        i = next;
    }
    assert(v@.skip(i as int).len() == 0);
    assert(words(v@.skip(i as int)) =~= Seq::empty());
    assert(texts(out@) + words(v@.skip(i as int)) =~= texts(out@));
    out
}

proof fn lemma_strip_idem(s: Seq<char>, class: CharClass)
    ensures
        strip_start(strip_start(s, class), class) == strip_start(s, class),
    decreases s.len(),
{
    if s.len() > 0 && class.has(s[0]) {
        lemma_strip_idem(s.drop_first(), class);
    }
}

proof fn lemma_words_strip(s: Seq<char>)
    ensures
        words(strip_start(s, CharClass::Space)) == words(s),
{
    lemma_strip_idem(s, CharClass::Space);
}

/// The last whitespace-separated word of `s`.
pub open spec fn last_word(s: Seq<char>) -> Option<Seq<char>> {
    let w = words(s);
    if w.len() == 0 {
        None
    } else {
        Some(w.last())
    }
}

pub fn final_word(s: &str) -> (r: Option<String>)
    ensures
        opt_text(r) == last_word(s@),
{
    let all = split_words(s);
    assert(texts(all@).len() == all@.len());
    if all.len() == 0 {
        None
    } else {
        assert(texts(all@).last() == all@[all@.len() - 1]@);
        Some(all[all.len() - 1].clone())
    }
}

/// A word has characters, and none of them is whitespace.
pub proof fn lemma_words(s: Seq<char>)
    ensures
        forall|i: int|
            0 <= i < words(s).len() ==> (#[trigger] words(s)[i]).len() > 0 && trimmed(words(s)[i])
                == words(s)[i],
    decreases s.len(),
{
    let t = strip_start(s, CharClass::Space);
    lemma_strip_start_len(s, CharClass::Space);
    if t.len() > 0 {
        let n = span(t, CharClass::Space);
        lemma_span_bound(t, CharClass::Space);
        lemma_words(t.skip(n as int));
        let first = t.take(n as int);
        assert(n > 0);
        assert(first[0] == t[0] && first.last() == t[n - 1]);
        assert(!CharClass::Space.has(t[n - 1]));
        assert(trimmed(first) == first);
        assert forall|i: int| 0 <= i < words(s).len() implies (#[trigger] words(s)[i]).len() > 0
            && trimmed(words(s)[i]) == words(s)[i] by {
            if i > 0 {
                assert(words(s)[i] == words(t.skip(n as int))[i - 1]);
            }
        }
    }
}

/// The word at position `i`.
pub open spec fn word_at(s: Seq<char>, i: int) -> Option<Seq<char>> {
    if 0 <= i < words(s).len() {
        Some(words(s)[i])
    } else {
        None
    }
}

/// The pieces of `s` between the occurrences of `c`; one piece where `c` does not occur.
pub open spec fn pieces(s: Seq<char>, c: char) -> Seq<Seq<char>>
    decreases s.len(),
{
    let n = span(s, CharClass::Is(c)) as int;
    if 0 <= n < s.len() {
        seq![s.take(n)] + pieces(s.skip(n + 1), c)
    } else {
        seq![s]
    }
}

pub fn split_at_each(s: &str, c: char) -> (r: Vec<String>)
    ensures
        texts(r@) == pieces(s@, c),
        r@.len() > 0,
{
    let v = chars_of(s);
    let mut out: Vec<String> = Vec::new();
    let mut i: usize = 0;
    assert(v@.skip(0) =~= v@);
    assert(texts(out@) + pieces(v@, c) =~= pieces(v@, c));
    loop
        invariant
            i <= v@.len(),
            v@ == s@,
            texts(out@) + pieces(v@.skip(i as int), c) == pieces(s@, c),
        decreases v.len() - i,
    {
        let ghost rest = v@.skip(i as int);
        let ghost before = texts(out@);
        let end = find_class(&v, i, CharClass::Is(c));
        let piece = string_between(&v, i, end);
        assert(piece@ =~= rest.take(end - i));
        out.push(piece);
        assert(texts(out@) =~= before.push(piece@));
        if end == v.len() {
            assert(rest.take(end - i) =~= rest);
            assert(texts(out@) =~= before + seq![rest]);
            return out;
        }
        assert(rest.skip(end - i + 1) =~= v@.skip(end + 1));
        assert(before + (seq![piece@] + pieces(v@.skip(end + 1), c)) =~= texts(out@) + pieces(
            v@.skip(end + 1),
            c,
        ));
        i = end + 1;
    }
}

/// `s` without the full stops and commas in it.
pub open spec fn without_points(s: Seq<char>) -> Seq<char>
    decreases s.len(),
{
    if s.len() == 0 {
        s
    } else if s.last() == '.' || s.last() == ',' {
        without_points(s.drop_last())
    } else {
        without_points(s.drop_last()).push(s.last())
    }
}

/// A text without full stops and commas is left as it is.
pub proof fn lemma_no_points(s: Seq<char>)
    requires
        forall|i: int| 0 <= i < s.len() ==> (#[trigger] s[i]) != '.' && s[i] != ',',
    ensures
        without_points(s) == s,
    decreases s.len(),
{
    if s.len() > 0 {
        assert(s.last() == s[s.len() - 1]);
        lemma_no_points(s.drop_last());
        assert(s.drop_last().push(s.last()) =~= s);
    }
}

proof fn lemma_without_points_joined(a: Seq<char>, b: Seq<char>)
    ensures
        without_points(a + b) == without_points(a) + without_points(b),
    decreases b.len(),
{
    if b.len() == 0 {
        assert(a + b =~= a);
        assert(without_points(a) + without_points(b) =~= without_points(a));
    } else {
        assert((a + b).drop_last() =~= a + b.drop_last());
        lemma_without_points_joined(a, b.drop_last());
        assert(without_points(a + b) =~= without_points(a) + without_points(b));
    }
}

/// Full stops and commas at the ends of a text do not matter once they are removed.
pub proof fn lemma_without_points_stripped(s: Seq<char>)
    ensures
        without_points(upper(strip_start(s, CharClass::PointOrComma))) == without_points(upper(s)),
        without_points(upper(strip_end(s, CharClass::PointOrComma))) == without_points(upper(s)),
    decreases s.len(),
{
    if s.len() > 0 {
        lemma_without_points_stripped(s.drop_first());
        lemma_without_points_stripped(s.drop_last());
        if CharClass::PointOrComma.has(s[0]) {
            assert(upper(s) =~= upper(s.take(1)) + upper(s.drop_first()));
            lemma_without_points_joined(upper(s.take(1)), upper(s.drop_first()));
            let one = upper(s.take(1));
            assert(one.len() == 1 && one.last() == s[0]);
            assert(one.drop_last() =~= Seq::empty());
            assert(without_points(one.drop_last()) =~= Seq::empty());
            assert(without_points(upper(s.take(1))) =~= Seq::empty());
            assert(Seq::<char>::empty() + without_points(upper(s.drop_first())) =~= without_points(
                upper(s.drop_first()),
            ));
        }
        if CharClass::PointOrComma.has(s.last()) {
            assert(upper(s).drop_last() =~= upper(s.drop_last()));
            assert(upper(s).last() == s.last());
        }
    }
}

pub fn remove_points(s: &str) -> (r: String)
    ensures
        r@ == without_points(s@),
{
    let v = chars_of(s);
    let mut out = String::new();
    let mut i: usize = 0;
    assert(v@.take(0) =~= Seq::empty());
    while i < v.len()
        invariant
            i <= v@.len(),
            v@ == s@,
            out@ == without_points(v@.take(i as int)),
        decreases v.len() - i,
    {
        assert(v@.take(i + 1).drop_last() =~= v@.take(i as int));
        assert(v@.take(i + 1).last() == v@[i as int]);
        if v[i] != '.' && v[i] != ',' {
            out.push(v[i]);
        }
        i = i + 1;
    }
    assert(v@.take(v@.len() as int) =~= v@);
    out
}

// ---------------------------------------------------------------------------------------------
// Searching
// ---------------------------------------------------------------------------------------------
pub open spec fn starts_with(s: Seq<char>, prefix: Seq<char>) -> bool {
    prefix.len() <= s.len() && s.take(prefix.len() as int) == prefix
}

/// `part` occurs in `s` as a run of neighbouring characters.
pub open spec fn has_part(s: Seq<char>, part: Seq<char>) -> bool {
    exists|i: int|
        0 <= i && i + part.len() <= s.len() && #[trigger] s.subrange(i, i + part.len()) == part
}

/// Whether the characters of `part` stand in `v` at `at`.
fn stands_at(v: &Vec<char>, part: &Vec<char>, at: usize) -> (r: bool)
    requires
        at <= v@.len(),
    ensures
        r == (at + part@.len() <= v@.len() && v@.subrange(at as int, at + part@.len()) == part@),
{
    if part.len() > v.len() - at {
        return false;
    }
    let mut i: usize = 0;
    while i < part.len()
        invariant
            i <= part@.len(),
            at + part@.len() <= v@.len() <= usize::MAX,
            forall|j: int| 0 <= j < i ==> v@[at + j] == part@[j],
        decreases part.len() - i,
    {
        if v[at + i] != part[i] {
            assert(v@.subrange(at as int, at + part@.len())[i as int] != part@[i as int]);
            return false;
        }
        i = i + 1;
    }
    assert(v@.subrange(at as int, at + part@.len()) =~= part@);
    true
}

pub fn begins_with(s: &str, prefix: &str) -> (r: bool)
    ensures
        r == starts_with(s@, prefix@),
{
    let v = chars_of(s);
    let p = chars_of(prefix);
    assert(v@.len() >= p@.len() ==> v@.take(p@.len() as int) =~= v@.subrange(0, p@.len() as int));
    stands_at(&v, &p, 0)
}

pub fn contains(s: &str, part: &str) -> (r: bool)
    ensures
        r == has_part(s@, part@),
{
    let v = chars_of(s);
    let p = chars_of(part);
    let mut i: usize = 0;
    loop
        invariant
            i <= v@.len(),
            v@ == s@,
            p@ == part@,
            forall|j: int|
                0 <= j < i && j + p@.len() <= v@.len() ==> #[trigger] v@.subrange(j, j + p@.len())
                    != p@,
        decreases v.len() - i,
    {
        if stands_at(&v, &p, i) {
            return true;
        }
        if i == v.len() {
            return false;
        }
        i = i + 1;
    }
}

pub fn contains_char(s: &str, c: char) -> (r: bool)
    ensures
        r == s@.contains(c),
{
    let v = chars_of(s);
    let mut i: usize = 0;
    while i < v.len()
        invariant
            i <= v@.len(),
            v@ == s@,
            forall|j: int| 0 <= j < i ==> v@[j] != c,
        decreases v.len() - i,
    {
        if v[i] == c {
            return true;
        }
        i = i + 1;
    }
    false
}

/// The number of places at which `c` stands in `s`.
pub open spec fn occurrences(s: Seq<char>, c: char) -> nat
    decreases s.len(),
{
    if s.len() == 0 {
        0
    } else {
        occurrences(s.drop_last(), c) + if s.last() == c {
            1nat
        } else {
            0nat
        }
    }
}

pub fn count_char(s: &str, c: char) -> (r: usize)
    ensures
        r == occurrences(s@, c),
{
    let v = chars_of(s);
    let mut i: usize = 0;
    let mut n: usize = 0;
    while i < v.len()
        invariant
            i <= v@.len(),
            v@ == s@,
            n <= i,
            n == occurrences(v@.take(i as int), c),
        decreases v.len() - i,
    {
        assert(v@.take(i + 1).drop_last() =~= v@.take(i as int));
        assert(v@.take(i + 1).last() == v@[i as int]);
        if v[i] == c {
            n = n + 1;
        }
        i = i + 1;
    }
    assert(v@.take(v@.len() as int) =~= v@);
    n
}

// ---------------------------------------------------------------------------------------------
// Laws of texts
// ---------------------------------------------------------------------------------------------
/// Capitals: a small letter becomes the letter 32 places before it; everything else stays.
pub proof fn law_capitals(s: Seq<char>, i: int)
    requires
        0 <= i < s.len(),
    ensures
        upper(s).len() == s.len(),
        97 <= s[i] as int <= 122 ==> upper(s)[i] as int == s[i] as int - 32,
        !(97 <= s[i] as int <= 122) ==> upper(s)[i] == s[i],
        !(97 <= upper(s)[i] as int <= 122),
        upper(upper(s)) == upper(s),
        same_letters(upper(s), s),
{
    assert(upper(upper(s)) =~= upper(s));
    assert(lower(upper(s)) =~= lower(s));
}

/// Small letters: a capital becomes the letter 32 places behind it; everything else stays.
pub proof fn law_small_letters(s: Seq<char>, i: int)
    requires
        0 <= i < s.len(),
    ensures
        lower(s).len() == s.len(),
        65 <= s[i] as int <= 90 ==> lower(s)[i] as int == s[i] as int + 32,
        !(65 <= s[i] as int <= 90) ==> lower(s)[i] == s[i],
        lower(lower(s)) == lower(s),
        same_letters(lower(s), s),
{
    assert(lower(lower(s)) =~= lower(s));
}

/// Two texts have the same letters exactly where their capitals are the same.
pub proof fn law_same_letters(a: Seq<char>, b: Seq<char>)
    ensures
        same_letters(a, b) <==> upper(a) == upper(b),
        same_letters(a, b) ==> a.len() == b.len(),
        same_letters(a, b) <==> same_letters(b, a),
        same_letters(a, a),
{
    if same_letters(a, b) {
        assert(lower(a).len() == lower(b).len());
        assert forall|i: int| 0 <= i < a.len() implies upper(a)[i] == upper(b)[i] by {
            assert(lower(a)[i] == lower(b)[i]);
            assert(upper(a)[i] == upper_char(a[i]) && upper(b)[i] == upper_char(b[i]));
            assert(lower(a)[i] == lower_char(a[i]) && lower(b)[i] == lower_char(b[i]));
            lemma_case(a[i], b[i]);
        }
        assert(upper(a) =~= upper(b));
    }
    if upper(a) == upper(b) {
        assert(upper(a).len() == upper(b).len());
        assert forall|i: int| 0 <= i < a.len() implies lower(a)[i] == lower(b)[i] by {
            assert(upper(a)[i] == upper(b)[i]);
            assert(upper(a)[i] == upper_char(a[i]) && upper(b)[i] == upper_char(b[i]));
            assert(lower(a)[i] == lower_char(a[i]) && lower(b)[i] == lower_char(b[i]));
            lemma_case(a[i], b[i]);
        }
        assert(lower(a) =~= lower(b));
    }
}

proof fn lemma_case(a: char, b: char)
    ensures
        lower_char(a) == lower_char(b) <==> upper_char(a) == upper_char(b),
{
    assert('a' as int == 97 && 'z' as int == 122 && 'A' as int == 65 && 'Z' as int == 90);
    if 'a' <= a <= 'z' {
        assert(upper_char(a) as int == a as int - 32);
    }
    if 'a' <= b <= 'z' {
        assert(upper_char(b) as int == b as int - 32);
    }
    if 'A' <= a <= 'Z' {
        assert(lower_char(a) as int == a as int + 32);
    }
    if 'A' <= b <= 'Z' {
        assert(lower_char(b) as int == b as int + 32);
    }
    if lower_char(a) == lower_char(b) {
        assert(lower_char(a) as int == lower_char(b) as int);
        assert(upper_char(a) as int == upper_char(b) as int);
    }
    if upper_char(a) == upper_char(b) {
        assert(upper_char(a) as int == upper_char(b) as int);
        assert(lower_char(a) as int == lower_char(b) as int);
    }
}

/// Among the characters up to the 127th the blank and the five from the tabulator on are space, and
/// no other.
pub proof fn law_space(c: char)
    requires
        (c as int) < 128,
    ensures
        is_space(c) <==> c as int == 32 || 9 <= c as int <= 13,
        is_digit(c) <==> 48 <= c as int <= 57,
        is_letter(c) <==> 65 <= c as int <= 90 || 97 <= c as int <= 122,
{
}

/// What is stripped from an end is of the class, and what is left does not end with one of it.
pub proof fn law_stripped(s: Seq<char>, class: CharClass)
    ensures
        ({
            let a = (s.len() - strip_start(s, class).len()) as int;
            &&& 0 <= a <= s.len()
            &&& strip_start(s, class) == s.skip(a)
            &&& forall|i: int| 0 <= i < a ==> class.has(#[trigger] s[i])
            &&& a < s.len() ==> !class.has(s[a])
        }),
        ({
            let b = strip_end(s, class).len() as int;
            &&& 0 <= b <= s.len()
            &&& strip_end(s, class) == s.take(b)
            &&& forall|i: int| b <= i < s.len() ==> class.has(#[trigger] s[i])
            &&& b > 0 ==> !class.has(s[b - 1])
        }),
    decreases s.len(),
{
    if s.len() > 0 && class.has(s[0]) {
        let rest = s.drop_first();
        law_stripped(rest, class);
        let a = (s.len() - strip_start(s, class).len()) as int;
        assert(rest.skip(a - 1) =~= s.skip(a));
        assert forall|i: int| 0 <= i < a implies class.has(#[trigger] s[i]) by {
            if i > 0 {
                assert(s[i] == rest[i - 1]);
            }
        }
        if a < s.len() {
            assert(s[a] == rest[a - 1]);
        }
    } else {
        assert(s.skip(0) =~= s);
    }
    if s.len() > 0 && class.has(s.last()) {
        let front = s.drop_last();
        law_stripped(front, class);
        let b = strip_end(s, class).len() as int;
        assert(front.take(b) =~= s.take(b));
        assert forall|i: int| b <= i < s.len() implies class.has(#[trigger] s[i]) by {
            if i < front.len() {
                assert(s[i] == front[i]);
            }
        }
        if b > 0 {
            assert(s[b - 1] == front[b - 1]);
        }
    } else {
        assert(s.take(s.len() as int) =~= s);
    }
}

/// The place at which the trimmed text begins in a text.
pub open spec fn trimmed_from(s: Seq<char>) -> int {
    s.len() - strip_start(s, CharClass::Space).len()
}

/// Trimming takes a part out of the text: what stands before and behind it is space, and it neither
/// begins nor ends with one.
pub proof fn law_trimmed(s: Seq<char>)
    ensures
        ({
            let a = trimmed_from(s);
            let t = trimmed(s);
            &&& 0 <= a && a + t.len() <= s.len()
            &&& t == s.subrange(a, a + t.len())
            &&& forall|i: int| 0 <= i < a ==> is_space(#[trigger] s[i])
            &&& forall|i: int| a + t.len() <= i < s.len() ==> is_space(#[trigger] s[i])
            &&& t.len() > 0 ==> !is_space(t[0]) && !is_space(t.last())
            &&& trimmed(t) == t
        }),
        trimmed(s).len() == 0 <==> forall|i: int| 0 <= i < s.len() ==> is_space(#[trigger] s[i]),
{
    let u = strip_start(s, CharClass::Space);
    law_stripped(s, CharClass::Space);
    law_stripped(u, CharClass::Space);
    let a = trimmed_from(s);
    let t = trimmed(s);
    assert(u == s.skip(a));
    assert(t == u.take(t.len() as int));
    assert(t =~= s.subrange(a, a + t.len()));
    assert forall|i: int| a + t.len() <= i < s.len() implies is_space(#[trigger] s[i]) by {
        assert(u[i - a] == s[i]);
        assert(CharClass::Space.has(u[i - a]));
    }
    if t.len() > 0 {
        assert(t[0] == s[a]);
        assert(!CharClass::Space.has(s[a]));
        assert(t.last() == u[t.len() - 1]);
        assert(trimmed(t) == t);
    }
    assert forall|i: int| 0 <= i < a implies is_space(#[trigger] s[i]) by {
        assert(CharClass::Space.has(s[i]));
    }
    if t.len() > 0 {
        assert(!is_space(s[a]));
    }
}

/// A text without a space in it is one word, and space alone holds none.
pub proof fn law_one_word(w: Seq<char>)
    ensures
        w.len() > 0 && (forall|i: int| 0 <= i < w.len() ==> !is_space(#[trigger] w[i])) ==> words(w)
            == seq![w],
        (forall|i: int| 0 <= i < w.len() ==> is_space(#[trigger] w[i])) ==> words(w) == Seq::<
            Seq<char>,
        >::empty(),
{
    law_trimmed(w);
    lemma_span_bound(w, CharClass::Space);
    law_stripped(w, CharClass::Space);
    let t = strip_start(w, CharClass::Space);
    if w.len() > 0 && (forall|i: int| 0 <= i < w.len() ==> !is_space(#[trigger] w[i])) {
        assert(!is_space(w[0]));
        assert(t == w);
        let n = span(w, CharClass::Space) as int;
        if n < w.len() {
            assert(CharClass::Space.has(w[n]));
        }
        assert(w.take(n) =~= w);
        assert(w.skip(n) =~= Seq::<char>::empty());
        assert(words(w.skip(n)) =~= Seq::<Seq<char>>::empty());
        assert(words(w) =~= seq![w]);
    }
    if forall|i: int| 0 <= i < w.len() ==> is_space(#[trigger] w[i]) {
        if t.len() > 0 {
            assert(t[0] == w[w.len() - t.len()]);
            lemma_strip_start_len(w, CharClass::Space);
        }
    }
}

proof fn lemma_strip_joined(a: Seq<char>, c: char, b: Seq<char>)
    requires
        is_space(c),
    ensures
        strip_start(a.push(c) + b, CharClass::Space) == if strip_start(a, CharClass::Space).len()
            == 0 {
            strip_start(b, CharClass::Space)
        } else {
            strip_start(a, CharClass::Space).push(c) + b
        },
    decreases a.len(),
{
    let all = a.push(c) + b;
    if a.len() == 0 {
        assert(all[0] == c);
        assert(all.drop_first() =~= b);
    } else if is_space(a[0]) {
        assert(all[0] == a[0]);
        assert(all.drop_first() =~= a.drop_first().push(c) + b);
        lemma_strip_joined(a.drop_first(), c, b);
    } else {
        assert(all[0] == a[0]);
    }
}

proof fn lemma_span_joined(a: Seq<char>, c: char, b: Seq<char>, class: CharClass)
    requires
        class.has(c),
    ensures
        span(a.push(c) + b, class) == span(a, class),
    decreases a.len(),
{
    let all = a.push(c) + b;
    if a.len() == 0 {
        assert(all[0] == c);
    } else if !class.has(a[0]) {
        assert(all[0] == a[0]);
        assert(all.drop_first() =~= a.drop_first().push(c) + b);
        lemma_span_joined(a.drop_first(), c, b, class);
    } else {
        assert(all[0] == a[0]);
    }
}

/// The words of two texts with a space between them are the words of the first and then those of the
/// second.
pub proof fn law_words_joined(a: Seq<char>, c: char, b: Seq<char>)
    requires
        is_space(c),
    ensures
        words(a.push(c) + b) == words(a) + words(b),
    decreases a.len(),
{
    let all = a.push(c) + b;
    let t = strip_start(a, CharClass::Space);
    lemma_strip_joined(a, c, b);
    lemma_strip_start_len(a, CharClass::Space);
    if t.len() == 0 {
        assert(words(a) =~= Seq::<Seq<char>>::empty());
        lemma_words_strip(all);
        lemma_words_strip(b);
        assert(words(a) + words(b) =~= words(b));
    } else {
        let u = t.push(c) + b;
        assert(CharClass::Space.has(c));
        lemma_span_joined(t, c, b, CharClass::Space);
        lemma_span_bound(t, CharClass::Space);
        let n = span(t, CharClass::Space) as int;
        assert(n > 0);
        assert(strip_start(all, CharClass::Space) == u);
        assert(u.take(n) =~= t.take(n));
        assert(u.skip(n) =~= t.skip(n).push(c) + b);
        law_words_joined(t.skip(n), c, b);
        assert(words(all) == seq![u.take(n)] + words(u.skip(n)));
        assert(words(a) == seq![t.take(n)] + words(t.skip(n)));
        assert(words(all) =~= words(a) + words(b));
    }
}

/// The pieces of two texts with the character between them are the pieces of the first and then
/// those of the second; a text without the character is one piece.
pub proof fn law_pieces_joined(a: Seq<char>, c: char, b: Seq<char>)
    ensures
        pieces(a.push(c) + b, c) == pieces(a, c) + pieces(b, c),
        !a.contains(c) ==> pieces(a, c) == seq![a],
    decreases a.len(),
{
    let all = a.push(c) + b;
    let class = CharClass::Is(c);
    lemma_span_joined(a, c, b, class);
    lemma_span_bound(a, class);
    let n = span(a, class) as int;
    if n < a.len() {
        assert(a[n] == c);
        assert(all.take(n) =~= a.take(n));
        assert(all.skip(n + 1) =~= a.skip(n + 1).push(c) + b);
        law_pieces_joined(a.skip(n + 1), c, b);
        assert(pieces(all, c) =~= pieces(a, c) + pieces(b, c));
    } else {
        assert(all.take(n) =~= a);
        assert(all.skip(n + 1) =~= b);
        assert(pieces(all, c) =~= pieces(a, c) + pieces(b, c));
    }
}

/// Removing full stops and commas removes each of them, keeps every other character in its order,
/// and looks at no other.
pub proof fn law_points_are_removed(a: Seq<char>, b: Seq<char>, c: char)
    ensures
        without_points(a + b) == without_points(a) + without_points(b),
        c as int == 46 || c as int == 44 ==> without_points(seq![c]) == Seq::<char>::empty(),
        c as int != 46 && c as int != 44 ==> without_points(seq![c]) == seq![c],
        without_points(Seq::<char>::empty()) == Seq::<char>::empty(),
{
    lemma_without_points_joined(a, b);
    let one = seq![c];
    assert(one.drop_last() =~= Seq::<char>::empty());
    assert(without_points(one.drop_last()) =~= Seq::<char>::empty());
    assert(without_points(one) =~= if c == '.' || c == ',' {
        Seq::<char>::empty()
    } else {
        one
    });
}

/// A text begins with another exactly where it is the other and something behind it, and has another
/// in it wherever that stands between two texts.
pub proof fn law_parts(before: Seq<char>, part: Seq<char>, behind: Seq<char>)
    ensures
        starts_with(part + behind, part),
        has_part(before + part + behind, part),
        starts_with(before, part) ==> before == part + before.skip(part.len() as int),
        has_part(before, part) ==> exists|i: int|
            0 <= i <= before.len() && before == #[trigger] before.take(i) + part + before.skip(
                i + part.len(),
            ),
{
    assert((part + behind).take(part.len() as int) =~= part);
    let all = before + part + behind;
    let n = before.len() as int;
    assert(all.subrange(n, n + part.len()) =~= part);
    if starts_with(before, part) {
        assert(before =~= before.take(part.len() as int) + before.skip(part.len() as int));
    }
    if has_part(before, part) {
        let i = choose|i: int|
            0 <= i && i + part.len() <= before.len() && #[trigger] before.subrange(
                i,
                i + part.len(),
            ) == part;
        assert(before =~= before.take(i) + before.subrange(i, i + part.len()) + before.skip(
            i + part.len(),
        ));
    }
}

/// Each occurrence of a character is counted once.
pub proof fn law_occurrences(a: Seq<char>, b: Seq<char>, c: char, d: char)
    ensures
        occurrences(a + b, c) == occurrences(a, c) + occurrences(b, c),
        occurrences(seq![d], c) == if d == c {
            1nat
        } else {
            0nat
        },
    decreases b.len(),
{
    let one = seq![d];
    assert(one.drop_last() =~= Seq::<char>::empty());
    assert(occurrences(one.drop_last(), c) == 0);
    if b.len() == 0 {
        assert(a + b =~= a);
    } else {
        assert((a + b).drop_last() =~= a + b.drop_last());
        assert((a + b).last() == b.last());
        law_occurrences(a, b.drop_last(), c, d);
    }
}

} // verus!
