//! Text as a sequence of characters.
//!
//! Everything the library decides about names, paths and lines is decided on
//! the characters of a string, so the operations that it needs are stated here
//! once, over `Seq<char>`, and computed on plain vectors of characters.

use vstd::prelude::*;

verus! {

/// `String::push` appends one character at the end.
pub assume_specification[ std::string::String::push ](s: &mut std::string::String, c: char)
    ensures
        final(s)@ == old(s)@.push(c),
;

/// The texts that a sequence of strings holds.
pub open spec fn texts(s: Seq<String>) -> Seq<Seq<char>> {
    Seq::new(s.len(), |i: int| s[i]@)
}

/// The text that an optional string holds.
pub open spec fn text_of(s: Option<String>) -> Option<Seq<char>> {
    match s {
        Some(s) => Some(s@),
        None => None,
    }
}

/// Whether `s` begins with `prefix`.
pub open spec fn begins(s: Seq<char>, prefix: Seq<char>) -> bool {
    &&& prefix.len() <= s.len()
    &&& s.subrange(0, prefix.len() as int) == prefix
}

/// Whether `s` ends with `suffix`.
pub open spec fn finishes(s: Seq<char>, suffix: Seq<char>) -> bool {
    &&& suffix.len() <= s.len()
    &&& s.subrange(s.len() - suffix.len(), s.len() as int) == suffix
}

/// What is left of `s` once its first `n` characters are gone.
pub open spec fn rest(s: Seq<char>, n: nat) -> Seq<char> {
    s.subrange(n as int, s.len() as int)
}

/// `s` without `prefix`, when it begins with it.
pub open spec fn without_prefix(s: Seq<char>, prefix: Seq<char>) -> Option<Seq<char>> {
    if begins(s, prefix) {
        Some(rest(s, prefix.len()))
    } else {
        None
    }
}

/// Whether the pattern stands at position `i` of `s`.
pub open spec fn stands_at(s: Seq<char>, pattern: Seq<char>, i: int) -> bool {
    &&& 0 <= i
    &&& i + pattern.len() <= s.len()
    &&& s.subrange(i, i + pattern.len()) == pattern
}

/// Whether the pattern stands anywhere in `s`.
pub open spec fn holds(s: Seq<char>, pattern: Seq<char>) -> bool {
    exists|i: int| stands_at(s, pattern, i)
}

/// The pieces of `s` between the occurrences of `sep`; there is always one
/// piece more than there are separators.
pub open spec fn split(s: Seq<char>, sep: char) -> Seq<Seq<char>>
    decreases s.len(),
{
    if s.len() == 0 {
        seq![Seq::<char>::empty()]
    } else {
        let before = split(s.drop_last(), sep);
        if s.last() == sep {
            before.push(Seq::<char>::empty())
        } else {
            before.drop_last().push(before.last().push(s.last()))
        }
    }
}

/// `parts` with `sep` between each two of them.
pub open spec fn join(parts: Seq<Seq<char>>, sep: Seq<char>) -> Seq<char>
    decreases parts.len(),
{
    if parts.len() == 0 {
        Seq::empty()
    } else if parts.len() == 1 {
        parts[0]
    } else {
        join(parts.drop_last(), sep) + sep + parts.last()
    }
}

/// A line with the carriage return that came before its line feed taken away.
pub open spec fn chomp(line: Seq<char>) -> Seq<char> {
    if line.len() > 0 && line.last() == '\r' {
        line.drop_last()
    } else {
        line
    }
}

/// The lines of `s`: what a line feed ends, without the line feed and the
/// carriage return before it, and then what is left over, if anything is.
pub open spec fn lines(s: Seq<char>) -> Seq<Seq<char>> {
    let pieces = split(s, '\n');
    let ended = Seq::new((pieces.len() - 1) as nat, |i: int| chomp(pieces[i]));
    if pieces.last().len() == 0 {
        ended
    } else {
        ended.push(pieces.last())
    }
}

/// The characters that Unicode counts as white space.
pub open spec fn is_space(c: char) -> bool {
    ||| '\u{9}' <= c && c <= '\u{d}'
    ||| c == ' '
    ||| c == '\u{85}'
    ||| c == '\u{a0}'
    ||| c == '\u{1680}'
    ||| '\u{2000}' <= c && c <= '\u{200a}'
    ||| c == '\u{2028}'
    ||| c == '\u{2029}'
    ||| c == '\u{202f}'
    ||| c == '\u{205f}'
    ||| c == '\u{3000}'
}

/// `s` without the white space that it begins with.
pub open spec fn trim_start(s: Seq<char>) -> Seq<char>
    decreases s.len(),
{
    if s.len() > 0 && is_space(s[0]) {
        trim_start(s.drop_first())
    } else {
        s
    }
}

/// `s` without the white space that it ends with.
pub open spec fn trim_end(s: Seq<char>) -> Seq<char>
    decreases s.len(),
{
    if s.len() > 0 && is_space(s.last()) {
        trim_end(s.drop_last())
    } else {
        s
    }
}

/// `s` without the white space around it.
pub open spec fn trim(s: Seq<char>) -> Seq<char> {
    trim_end(trim_start(s))
}

/// The order of texts: the first character that differs decides, and a text
/// comes before every longer one that it begins.
pub open spec fn before(a: Seq<char>, b: Seq<char>) -> bool
    decreases a.len(),
{
    if b.len() == 0 {
        false
    } else if a.len() == 0 {
        true
    } else if a[0] == b[0] {
        before(a.drop_first(), b.drop_first())
    } else {
        a[0] < b[0]
    }
}

/// The digit that stands for a number below ten.
pub open spec fn digit(n: nat) -> char {
    ('0' as u32 + n % 10) as char
}

/// A number written in decimal.
pub open spec fn decimal(n: nat) -> Seq<char>
    decreases n,
{
    if n < 10 {
        seq![digit(n)]
    } else {
        decimal(n / 10).push(digit(n))
    }
}

/// A whole number written in decimal, with its sign when it is negative.
pub open spec fn signed(n: int) -> Seq<char> {
    if n < 0 {
        seq!['-'] + decimal((-n) as nat)
    } else {
        decimal(n as nat)
    }
}

/// Whether a character is one of the ten digits.
pub open spec fn is_digit(c: char) -> bool {
    '0' <= c && c <= '9'
}

/// Whether a text is made of digits, and has at least one.
pub open spec fn all_digits(s: Seq<char>) -> bool {
    &&& s.len() > 0
    &&& forall|i: int| 0 <= i < s.len() ==> is_digit(#[trigger] s[i])
}

/// The number that a run of digits writes.
pub open spec fn number(s: Seq<char>) -> nat
    decreases s.len(),
{
    if s.len() == 0 {
        0
    } else {
        (number(s.drop_last()) * 10 + (s.last() as u32 - '0' as u32)) as nat
    }
}

/// The number that a text reads as: digits, after at most one plus sign.
pub open spec fn natural(s: Seq<char>) -> Option<nat> {
    if all_digits(s) {
        Some(number(s))
    } else if s.len() > 0 && s[0] == '+' && all_digits(s.drop_first()) {
        Some(number(s.drop_first()))
    } else {
        None
    }
}

/// The whole number that a text reads as: digits, after at most one sign.
pub open spec fn whole(s: Seq<char>) -> Option<int> {
    if s.len() > 0 && s[0] == '-' && all_digits(s.drop_first()) {
        Some(-(number(s.drop_first()) as int))
    } else {
        match natural(s) {
            Some(n) => Some(n as int),
            None => None,
        }
    }
}

/// The characters of a string.
pub fn chars_of(s: &str) -> (v: Vec<char>)
    ensures
        v@ == s@,
{
    let mut v: Vec<char> = Vec::new();
    for c in it: s.chars()
        invariant
            v@ == it.seq().take(it.index()),
            it.seq() == s@,
    {
        v.push(c);
    }
    v
}

/// The string that holds the characters `from` to `to` of `cs`.
pub fn string_of(cs: &Vec<char>, from: usize, to: usize) -> (r: String)
    requires
        from <= to <= cs@.len(),
    ensures
        r@ == cs@.subrange(from as int, to as int),
{
    let mut r = String::new();
    let mut i: usize = from;
    while i < to
        invariant
            from <= i <= to <= cs@.len(),
            r@ == cs@.subrange(from as int, i as int),
        decreases to - i,
    {
        r.push(cs[i]);
        i += 1;
    }
    r
}

/// Whether two strings hold the same text.
pub fn equal(a: &str, b: &str) -> (r: bool)
    ensures
        r == (a@ == b@),
{
    let left = chars_of(a);
    let right = chars_of(b);
    if left.len() != right.len() {
        return false;
    }
    let mut i: usize = 0;
    while i < left.len()
        invariant
            left@ == a@,
            right@ == b@,
            i <= left@.len() == right@.len(),
            forall|j: int| 0 <= j < i ==> left@[j] == right@[j],
        decreases left@.len() - i,
    {
        if left[i] != right[i] {
            return false;
        }
        i += 1;
    }
    assert(left@ =~= right@);
    true
}

/// Whether `pattern` stands at position `at` of `cs`.
pub fn matches_at(cs: &Vec<char>, pattern: &Vec<char>, at: usize) -> (r: bool)
    ensures
        r == stands_at(cs@, pattern@, at as int),
{
    if at > cs.len() || pattern.len() > cs.len() - at {
        return false;
    }
    let mut i: usize = 0;
    while i < pattern.len()
        invariant
            i <= pattern@.len(),
            at + pattern@.len() <= cs@.len() <= usize::MAX,
            forall|j: int| 0 <= j < i ==> cs@[at + j] == pattern@[j],
        decreases pattern@.len() - i,
    {
        if cs[at + i] != pattern[i] {
            assert(cs@.subrange(at as int, at + pattern@.len())[i as int] != pattern@[i as int]);
            return false;
        }
        i += 1;
    }
    assert(cs@.subrange(at as int, at + pattern@.len()) =~= pattern@);
    true
}

/// Whether `s` begins with `prefix`.
pub fn starts(s: &str, prefix: &str) -> (r: bool)
    ensures
        r == begins(s@, prefix@),
{
    matches_at(&chars_of(s), &chars_of(prefix), 0)
}

/// Whether `s` ends with `suffix`.
pub fn ends(s: &str, suffix: &str) -> (r: bool)
    ensures
        r == finishes(s@, suffix@),
{
    let cs = chars_of(s);
    let suffix = chars_of(suffix);
    if suffix.len() > cs.len() {
        return false;
    }
    matches_at(&cs, &suffix, cs.len() - suffix.len())
}

/// Whether `pattern` stands anywhere in `s`.
pub fn contains(s: &str, pattern: &str) -> (r: bool)
    ensures
        r == holds(s@, pattern@),
{
    let cs = chars_of(s);
    let sought = chars_of(pattern);
    let mut i: usize = 0;
    while i < cs.len()
        invariant
            cs@ == s@,
            sought@ == pattern@,
            i <= cs@.len(),
            forall|j: int| 0 <= j < i ==> !stands_at(cs@, sought@, j),
        decreases cs@.len() - i,
    {
        if matches_at(&cs, &sought, i) {
            return true;
        }
        i += 1;
    }
    matches_at(&cs, &sought, i)
}

/// `s` without `prefix`, when it begins with it.
pub fn strip(s: &str, prefix: &str) -> (r: Option<String>)
    ensures
        text_of(r) == without_prefix(s@, prefix@),
{
    let cs = chars_of(s);
    let prefix = chars_of(prefix);
    if matches_at(&cs, &prefix, 0) {
        Some(string_of(&cs, prefix.len(), cs.len()))
    } else {
        None
    }
}

/// Whether a character is white space.
pub fn space(c: char) -> (r: bool)
    ensures
        r == is_space(c),
{
    ('\u{9}' <= c && c <= '\u{d}') || c == ' ' || c == '\u{85}' || c == '\u{a0}' || c == '\u{1680}'
        || ('\u{2000}' <= c && c <= '\u{200a}') || c == '\u{2028}' || c == '\u{2029}' || c
        == '\u{202f}' || c == '\u{205f}' || c == '\u{3000}'
}

/// `s` without the white space that it begins with.
pub fn trimmed_start(s: &str) -> (r: String)
    ensures
        r@ == trim_start(s@),
{
    let cs = chars_of(s);
    let mut i: usize = 0;
    assert(rest(s@, 0) =~= s@);
    while i < cs.len() && space(cs[i])
        invariant
            i <= cs@.len(),
            cs@ == s@,
            trim_start(rest(s@, i as nat)) == trim_start(s@),
        decreases cs@.len() - i,
    {
        assert(rest(s@, i as nat).drop_first() =~= rest(s@, (i + 1) as nat));
        i += 1;
    }
    string_of(&cs, i, cs.len())
}

/// `s` without the white space around it.
pub fn trimmed(s: &str) -> (r: String)
    ensures
        r@ == trim(s@),
{
    let cs = chars_of(trimmed_start(s).as_str());
    let mut i: usize = cs.len();
    assert(cs@.take(i as int) =~= cs@);
    while i > 0 && space(cs[i - 1])
        invariant
            i <= cs@.len(),
            trim_end(cs@.take(i as int)) == trim_end(cs@),
        decreases i,
    {
        assert(cs@.take(i as int).drop_last() =~= cs@.take(i - 1));
        i -= 1;
    }
    string_of(&cs, 0, i)
}

/// Whether there is nothing but white space in `s`.
pub fn blank(s: &str) -> (r: bool)
    ensures
        r == (trim(s@).len() == 0),
{
    chars_of(trimmed(s).as_str()).len() == 0
}

pub proof fn lemma_split_some(s: Seq<char>, sep: char)
    ensures
        split(s, sep).len() > 0,
    decreases s.len(),
{
    if s.len() > 0 {
        lemma_split_some(s.drop_last(), sep);
    }
}

/// The pieces of a text with the separator between each two of them are the text.
pub proof fn lemma_split_join(s: Seq<char>, sep: char)
    ensures
        join(split(s, sep), seq![sep]) == s,
    decreases s.len(),
{
    if s.len() == 0 {
        assert(join(split(s, sep), seq![sep]) =~= s);
    } else {
        let less = s.drop_last();
        let before = split(less, sep);
        let all = split(s, sep);
        lemma_split_some(less, sep);
        lemma_split_join(less, sep);
        if s.last() == sep {
            assert(all.drop_last() =~= before);
            assert(join(all, seq![sep]) =~= s);
        } else {
            assert(all.drop_last() =~= before.drop_last());
            assert(join(all, seq![sep]) =~= join(before, seq![sep]).push(s.last()));
            assert(less.push(s.last()) =~= s);
        }
    }
}

/// No piece holds the separator.
pub proof fn lemma_split_plain(s: Seq<char>, sep: char)
    ensures
        forall|i: int| 0 <= i < split(s, sep).len() ==> !(#[trigger] split(s, sep)[i]).contains(sep),
    decreases s.len(),
{
    if s.len() > 0 {
        let before = split(s.drop_last(), sep);
        let all = split(s, sep);
        lemma_split_some(s.drop_last(), sep);
        lemma_split_plain(s.drop_last(), sep);
        assert forall|i: int| 0 <= i < all.len() implies !(#[trigger] all[i]).contains(sep) by {
            if i < before.len() - 1 {
                assert(all[i] == before[i]);
            } else if s.last() == sep {
                if i < before.len() {
                    assert(all[i] == before[i]);
                }
            } else {
                assert(!before[before.len() - 1].contains(sep));
                if all[i].contains(sep) {
                    let k = choose|k: int| 0 <= k < all[i].len() && all[i][k] == sep;
                    assert(k < before.last().len());
                    assert(before.last()[k] == sep);
                }
            }
        }
    }
}

/// The pieces of `s` between the occurrences of `sep`.
pub fn pieces(s: &str, sep: char) -> (r: Vec<String>)
    ensures
        texts(r@) == split(s@, sep),
        r@.len() > 0,
{
    let cs = chars_of(s);
    let mut r: Vec<String> = Vec::new();
    let mut piece = String::new();
    let mut i: usize = 0;
    assert(texts(r@).push(piece@) =~= split(s@.take(0), sep));
    while i < cs.len()
        invariant
            i <= cs@.len(),
            cs@ == s@,
            texts(r@).push(piece@) == split(s@.take(i as int), sep),
        decreases cs@.len() - i,
    {
        let ghost done = s@.take(i + 1);
        assert(done.drop_last() =~= s@.take(i as int));
        assert(texts(r@).push(piece@).drop_last() =~= texts(r@));
        if cs[i] == sep {
            let ghost was = r@;
            let full = piece;
            piece = String::new();
            r.push(full);
            assert(texts(r@) =~= texts(was).push(full@));
        } else {
            piece.push(cs[i]);
        }
        i += 1;
    }
    assert(s@.take(i as int) =~= s@);
    let ghost was = r@;
    let ghost last = piece@;
    r.push(piece);
    assert(texts(r@) =~= texts(was).push(last));
    r
}

/// `parts` with `sep` between each two of them.
pub fn joined(parts: &Vec<String>, sep: &str) -> (r: String)
    ensures
        r@ == join(texts(parts@), sep@),
{
    let mut r = String::new();
    let mut i: usize = 0;
    assert(texts(parts@).take(0) =~= Seq::empty());
    while i < parts.len()
        invariant
            i <= parts@.len(),
            r@ == join(texts(parts@).take(i as int), sep@),
        decreases parts@.len() - i,
    {
        let ghost done = texts(parts@).take(i + 1);
        assert(done.drop_last() =~= texts(parts@).take(i as int));
        if i > 0 {
            r.append(sep);
        }
        r.append(parts[i].as_str());
        if i == 0 {
            assert(Seq::<char>::empty() + parts@[0]@ =~= parts@[0]@);
        }
        i += 1;
    }
    assert(texts(parts@).take(i as int) =~= texts(parts@));
    r
}

/// The lines of `s`.
pub fn lines_of(s: &str) -> (r: Vec<String>)
    ensures
        texts(r@) == lines(s@),
{
    let all = pieces(s, '\n');
    let mut r: Vec<String> = Vec::new();
    let mut i: usize = 0;
    let last: usize = all.len() - 1;
    while i < last
        invariant
            i <= last == all@.len() - 1,
            texts(all@) == split(s@, '\n'),
            r@.len() == i,
            forall|j: int| 0 <= j < i ==> (#[trigger] r@[j])@ == chomp(texts(all@)[j]),
        decreases last - i,
    {
        let cs = chars_of(all[i].as_str());
        assert(texts(all@)[i as int] == cs@);
        if cs.len() > 0 && cs[cs.len() - 1] == '\r' {
            r.push(string_of(&cs, 0, cs.len() - 1));
        } else {
            r.push(string_of(&cs, 0, cs.len()));
        }
        i += 1;
    }
    let tail = chars_of(all[last].as_str());
    assert(split(s@, '\n').last() == tail@);
    if tail.len() > 0 {
        r.push(string_of(&tail, 0, tail.len()));
        assert(tail@.subrange(0, tail@.len() as int) =~= tail@);
    }
    let ghost all = split(s@, '\n');
    assert(all.len() == last + 1);
    let ghost ended = Seq::new((all.len() - 1) as nat, |j: int| chomp(all[j]));
    proof {
        if tail@.len() > 0 {
            assert(texts(r@) =~= ended.push(all.last()));
        } else {
            assert(texts(r@) =~= ended);
        }
    }
    r
}

/// Whether the text of `a` comes before the text of `b`.
pub fn less(a: &str, b: &str) -> (r: bool)
    ensures
        r == before(a@, b@),
{
    let a = chars_of(a);
    let b = chars_of(b);
    let mut i: usize = 0;
    assert(rest(a@, 0) =~= a@);
    assert(rest(b@, 0) =~= b@);
    while i < a.len() && i < b.len() && a[i] == b[i]
        invariant
            i <= a@.len(),
            i <= b@.len(),
            before(rest(a@, i as nat), rest(b@, i as nat)) == before(a@, b@),
        decreases a@.len() - i,
    {
        assert(rest(a@, i as nat).drop_first() =~= rest(a@, (i + 1) as nat));
        assert(rest(b@, i as nat).drop_first() =~= rest(b@, (i + 1) as nat));
        i += 1;
    }
    if i == b.len() {
        false
    } else if i == a.len() {
        true
    } else {
        a[i] < b[i]
    }
}

/// No text comes before itself.
pub proof fn lemma_before_irreflexive(a: Seq<char>)
    ensures
        !before(a, a),
    decreases a.len(),
{
    if a.len() > 0 {
        lemma_before_irreflexive(a.drop_first());
    }
}

/// The order of texts is transitive.
pub proof fn lemma_before_transitive(a: Seq<char>, b: Seq<char>, c: Seq<char>)
    requires
        before(a, b),
        before(b, c),
    ensures
        before(a, c),
    decreases a.len(),
{
    if a.len() > 0 && b.len() > 0 && c.len() > 0 && a[0] == b[0] && b[0] == c[0] {
        lemma_before_transitive(a.drop_first(), b.drop_first(), c.drop_first());
    }
}

/// Of two different texts, one comes before the other.
pub proof fn lemma_before_total(a: Seq<char>, b: Seq<char>)
    requires
        a != b,
    ensures
        before(a, b) || before(b, a),
    decreases a.len(),
{
    if a.len() == 0 {
        assert(b.len() != 0) by {
            if b.len() == 0 {
                assert(a =~= b);
            }
        }
    } else if b.len() > 0 && a[0] == b[0] {
        if a.drop_first() == b.drop_first() {
            assert(a =~= seq![a[0]] + a.drop_first());
            assert(b =~= seq![b[0]] + b.drop_first());
        }
        lemma_before_total(a.drop_first(), b.drop_first());
    }
}

/// A text is not both before and after another.
pub proof fn lemma_before_asymmetric(a: Seq<char>, b: Seq<char>)
    requires
        before(a, b),
    ensures
        !before(b, a),
{
    if before(b, a) {
        lemma_before_transitive(a, b, a);
        lemma_before_irreflexive(a);
    }
}

/// A number written in decimal.
pub fn decimal_of(n: u64) -> (r: String)
    ensures
        r@ == decimal(n as nat),
    decreases n,
{
    let mut r = if n < 10 {
        String::new()
    } else {
        decimal_of(n / 10)
    };
    let d: u8 = (n % 10) as u8;
    let c: char = (48u8 + d) as char;
    r.push(c);
    if n < 10 {
        assert(r@ =~= seq![digit(n as nat)]);
    }
    r
}

/// A whole number written in decimal.
pub fn signed_of(n: i64) -> (r: String)
    ensures
        r@ == signed(n as int),
{
    if n < 0 {
        let m: u64 = (-(n as i128)) as u64;
        let mut r = String::new();
        r.push('-');
        r.append(decimal_of(m).as_str());
        assert(r@ =~= seq!['-'] + decimal((-(n as int)) as nat));
        r
    } else {
        decimal_of(n as u64)
    }
}

/// The value of a digit.
pub fn digit_value(c: char) -> (r: Option<u8>)
    ensures
        r == (if is_digit(c) {
            Some((c as u32 - '0' as u32) as u8)
        } else {
            None
        }),
{
    if '0' <= c && c <= '9' {
        Some((c as u32 - 48) as u8)
    } else {
        None
    }
}

/// The number that the digits from `from` on write, when there is one and it
/// fits.
fn digits_value(cs: &Vec<char>, from: usize) -> (r: Option<u64>)
    requires
        from <= cs@.len(),
    ensures
        r == (if all_digits(rest(cs@, from as nat)) && number(rest(cs@, from as nat))
            <= u64::MAX {
            Some(number(rest(cs@, from as nat)) as u64)
        } else {
            None
        }),
{
    let ghost s = rest(cs@, from as nat);
    if from == cs.len() {
        return None;
    }
    let mut n: u64 = 0;
    let mut fits: bool = true;
    let mut i: usize = from;
    assert(s.take(0) =~= Seq::empty());
    while i < cs.len()
        invariant
            from <= i <= cs@.len(),
            s == rest(cs@, from as nat),
            s.len() > 0,
            forall|j: int| 0 <= j < i - from ==> is_digit(#[trigger] s[j]),
            fits == (number(s.take(i - from)) <= u64::MAX),
            fits ==> n == number(s.take(i - from)),
        decreases cs@.len() - i,
    {
        assert(s[i - from] == cs@[i as int]);
        match digit_value(cs[i]) {
            None => {
                assert(!is_digit(s[i - from]));
                return None;
            },
            Some(d) => {
                let ghost more = s.take(i - from + 1);
                assert(more.drop_last() =~= s.take(i - from));
                assert(more.last() == s[i - from]);
                assert(number(more) == number(s.take(i - from)) * 10 + d);
                if fits && n <= 1844674407370955161 && n * 10 <= 18446744073709551615 - d as u64 {
                    n = n * 10 + d as u64;
                } else {
                    fits = false;
                }
                i += 1;
            },
        }
    }
    assert(s.take(i - from) =~= s);
    if fits {
        Some(n)
    } else {
        None
    }
}

/// The number that a text reads as, when it fits in 64 bits.
pub fn read_natural(s: &str) -> (r: Option<u64>)
    ensures
        r == (match natural(s@) {
            Some(n) => if n <= u64::MAX {
                Some(n as u64)
            } else {
                None
            },
            None => None,
        }),
{
    let cs = chars_of(s);
    assert(rest(s@, 0) =~= s@);
    if cs.len() > 0 && cs[0] == '+' {
        assert(!is_digit(s@[0]));
        assert(rest(s@, 1) =~= s@.drop_first());
        digits_value(&cs, 1)
    } else {
        digits_value(&cs, 0)
    }
}

/// The whole number that a text reads as, when it fits in 64 bits.
pub fn read_whole(s: &str) -> (r: Option<i64>)
    ensures
        r == (match whole(s@) {
            Some(n) => if i64::MIN <= n <= i64::MAX {
                Some(n as i64)
            } else {
                None
            },
            None => None,
        }),
{
    let cs = chars_of(s);
    if cs.len() > 0 && cs[0] == '-' {
        assert(!is_digit(s@[0]));
        assert(rest(s@, 1) =~= s@.drop_first());
        match digits_value(&cs, 1) {
            Some(n) => {
                if n <= 9223372036854775808 {
                    Some((-(n as i128)) as i64)
                } else {
                    None
                }
            },
            None => None,
        }
    } else {
        match read_natural(s) {
            Some(n) => {
                if n <= 9223372036854775807 {
                    Some(n as i64)
                } else {
                    None
                }
            },
            None => None,
        }
    }
}

/// Whether texts stand in their order, each of them once.
pub open spec fn ascending(s: Seq<Seq<char>>) -> bool {
    forall|i: int, j: int| 0 <= i < j < s.len() ==> before(#[trigger] s[i], #[trigger] s[j])
}

/// The texts of a set, in their order.
pub open spec fn listing(set: Set<Seq<char>>) -> Seq<Seq<char>> {
    choose|s: Seq<Seq<char>>| ascending(s) && s.to_set() == set
}

proof fn lemma_ascending_agree(a: Seq<Seq<char>>, b: Seq<Seq<char>>, i: int)
    requires
        ascending(a),
        ascending(b),
        a.to_set() == b.to_set(),
        0 <= i < a.len(),
    ensures
        i < b.len(),
        a[i] == b[i],
    decreases i,
{
    assert(a.to_set().contains(a[i]));
    let j = choose|j: int| 0 <= j < b.len() && b[j] == a[i];
    if j > i {
        assert(b.to_set().contains(b[i]));
        let m = choose|m: int| 0 <= m < a.len() && a[m] == b[i];
        assert(before(b[i], b[j]));
        if m < i {
            lemma_ascending_agree(a, b, m);
            assert(before(b[m], b[i]));
            lemma_before_irreflexive(b[i]);
        } else {
            if m > i {
                assert(before(a[i], a[m]));
                lemma_before_asymmetric(a[i], a[m]);
            }
            lemma_before_irreflexive(a[i]);
        }
    } else if j < i {
        lemma_ascending_agree(a, b, j);
        assert(before(a[j], a[i]));
        lemma_before_irreflexive(a[i]);
    }
}

/// Texts in their order are known by their set.
pub proof fn lemma_listing(s: Seq<Seq<char>>)
    requires
        ascending(s),
    ensures
        listing(s.to_set()) == s,
{
    let other = listing(s.to_set());
    assert(ascending(other) && other.to_set() == s.to_set());
    assert forall|i: int| 0 <= i < s.len() implies i < other.len() && s[i] == other[i] by {
        lemma_ascending_agree(s, other, i);
    }
    if other.len() > s.len() {
        lemma_ascending_agree(other, s, s.len() as int);
    }
    if s.len() > other.len() {
        lemma_ascending_agree(s, other, other.len() as int);
    }
    assert(s =~= other);
}

/// Add a text to others that stand in their order.
pub fn enlist(list: &mut Vec<String>, item: &str)
    requires
        ascending(texts(old(list)@)),
    ensures
        ascending(texts(final(list)@)),
        texts(final(list)@).to_set() == texts(old(list)@).to_set().insert(item@),
{
    let ghost was = texts(list@);
    let mut i: usize = 0;
    while i < list.len() && less(list[i].as_str(), item)
        invariant
            i <= list@.len(),
            texts(list@) == was,
            forall|j: int| 0 <= j < i ==> before(#[trigger] was[j], item@),
        decreases list@.len() - i,
    {
        assert(was[i as int] == list@[i as int]@);
        i += 1;
    }
    if i < list.len() && equal(list[i].as_str(), item) {
        assert(was[i as int] == item@);
        assert(was.to_set().insert(item@) =~= was.to_set());
        return ;
    }
    proof {
        if i < list@.len() {
            assert(was[i as int] == list@[i as int]@);
            lemma_before_total(was[i as int], item@);
        }
    }
    list.insert(i, item.to_owned());
    proof {
        let now = texts(list@);
        assert(now =~= was.insert(i as int, item@));
        assert forall|a: int, b: int| 0 <= a < b < now.len() implies before(
            #[trigger] now[a],
            #[trigger] now[b],
        ) by {
            let x = if a < i { a } else { a - 1 };
            let y = if b < i { b } else { b - 1 };
            if a == i {
                assert(now[b] == was[y]);
                if y > i {
                    lemma_before_transitive(item@, was[i as int], was[y]);
                }
            } else if b == i {
                assert(now[a] == was[x]);
            } else {
                assert(now[a] == was[x]);
                assert(now[b] == was[y]);
            }
        }
        assert forall|t: Seq<char>| now.to_set().contains(t) == was.to_set().insert(item@).contains(
            t,
        ) by {
            if was.contains(t) {
                let j = choose|j: int| 0 <= j < was.len() && was[j] == t;
                if j < i {
                    assert(now[j] == t);
                } else {
                    assert(now[j + 1] == t);
                }
            }
            if t == item@ {
                assert(now[i as int] == t);
            }
            if now.contains(t) && t != item@ {
                let j = choose|j: int| 0 <= j < now.len() && now[j] == t;
                if j < i {
                    assert(was[j] == t);
                } else {
                    assert(was[j - 1] == t);
                }
            }
        }
        assert(now.to_set() =~= was.to_set().insert(item@));
    }
}

/// Whether a list holds a text.
pub fn listed(list: &Vec<String>, item: &str) -> (r: bool)
    ensures
        r == texts(list@).contains(item@),
{
    let mut i: usize = 0;
    while i < list.len()
        invariant
            i <= list@.len(),
            forall|j: int| 0 <= j < i ==> texts(list@)[j] != item@,
        decreases list@.len() - i,
    {
        assert(texts(list@)[i as int] == list@[i as int]@);
        if equal(list[i].as_str(), item) {
            return true;
        }
        i += 1;
    }
    false
}

pub proof fn lemma_take_set(s: Seq<Seq<char>>, i: int)
    requires
        0 <= i < s.len(),
    ensures
        s.take(i + 1).to_set() == s.take(i).to_set().insert(s[i]),
{
    let now = s.take(i + 1);
    let done = s.take(i).to_set();
    assert forall|t: Seq<char>| now.contains(t) == done.insert(s[i]).contains(t) by {
        if s.take(i).contains(t) {
            let j = choose|j: int| 0 <= j < i && s.take(i)[j] == t;
            assert(now[j] == t);
        }
        if t == s[i] {
            assert(now[i] == t);
        }
        if now.contains(t) && t != s[i] {
            let j = choose|j: int| 0 <= j < now.len() && now[j] == t;
            assert(s.take(i)[j] == t);
        }
    }
    assert(now.to_set() =~= done.insert(s[i]));
}

/// What stands on the two sides of a separator is split on its own.
pub proof fn lemma_split_joins(a: Seq<char>, b: Seq<char>, sep: char)
    ensures
        split(a + seq![sep] + b, sep) == split(a, sep) + split(b, sep),
    decreases b.len(),
{
    let whole = a + seq![sep] + b;
    if b.len() == 0 {
        assert(whole.drop_last() =~= a);
        assert(whole.last() == sep);
        assert(split(whole, sep) =~= split(a, sep) + split(b, sep));
    } else {
        lemma_split_joins(a, b.drop_last(), sep);
        lemma_split_some(b.drop_last(), sep);
        assert(whole.drop_last() =~= a + seq![sep] + b.drop_last());
        assert(whole.last() == b.last());
        let x = split(a, sep);
        let y = split(b.drop_last(), sep);
        assert((x + y).drop_last() =~= x + y.drop_last());
        assert((x + y).last() == y.last());
        assert(split(whole, sep) =~= x + split(b, sep));
    }
}

/// What the standard library says of bytes that are not valid UTF-8.
pub uninterp spec fn utf8_complaint(bytes: Seq<u8>) -> Seq<char>;

/// `String::from_utf8` takes bytes for text where they are valid UTF-8, and
/// refuses them with a complaint otherwise.
#[verifier::external_body]
pub(crate) fn from_utf8(bytes: Vec<u8>) -> (r: Result<String, String>)
    ensures
        match r {
            Ok(s) => vstd::utf8::valid_utf8(bytes@) && s@ == vstd::utf8::decode_utf8(bytes@),
            Err(e) => !vstd::utf8::valid_utf8(bytes@) && e@ == utf8_complaint(bytes@),
        },
{
    String::from_utf8(bytes).map_err(|e| e.to_string())
}

/// The text that bytes hold, when they hold text.
pub open spec fn decoded(bytes: Seq<u8>) -> Option<Seq<char>> {
    if vstd::utf8::valid_utf8(bytes) {
        Some(vstd::utf8::decode_utf8(bytes))
    } else {
        None
    }
}

/// A number written in octal.
pub open spec fn octal(n: nat) -> Seq<char>
    decreases n,
{
    if n < 8 {
        seq![digit(n)]
    } else {
        octal(n / 8).push(digit(n % 8))
    }
}

/// A number written in octal.
pub fn octal_of(n: u32) -> (r: String)
    ensures
        r@ == octal(n as nat),
    decreases n,
{
    let mut r = if n < 8 {
        String::new()
    } else {
        octal_of(n / 8)
    };
    let d: u8 = (n % 8) as u8;
    let c: char = (48u8 + d) as char;
    r.push(c);
    if n < 8 {
        assert(r@ =~= seq![digit(n as nat)]);
    }
    r
}

/// The first complaint about one of these names.
pub open spec fn first_of(
    names: Seq<Seq<char>>,
    why: spec_fn(Seq<char>) -> Option<Seq<char>>,
) -> Option<Seq<char>>
    decreases names.len(),
{
    if names.len() == 0 {
        None
    } else {
        match first_of(names.drop_last(), why) {
            Some(e) => Some(e),
            None => why(names.last()),
        }
    }
}

pub proof fn lemma_first_step(
    names: Seq<Seq<char>>,
    why: spec_fn(Seq<char>) -> Option<Seq<char>>,
    i: int,
)
    requires
        0 <= i < names.len(),
        first_of(names.take(i), why) is None,
    ensures
        first_of(names.take(i + 1), why) == why(names[i]),
        why(names[i]) is Some ==> first_of(names, why) == why(names[i]),
    decreases names.len() - i,
{
    assert(names.take(i + 1).drop_last() =~= names.take(i));
    if why(names[i]) is Some {
        lemma_first_stays(names, why, i + 1);
    }
}

proof fn lemma_first_stays(
    names: Seq<Seq<char>>,
    why: spec_fn(Seq<char>) -> Option<Seq<char>>,
    i: int,
)
    requires
        0 <= i <= names.len(),
        first_of(names.take(i), why) is Some,
    ensures
        first_of(names, why) == first_of(names.take(i), why),
    decreases names.len() - i,
{
    if i == names.len() {
        assert(names.take(i) =~= names);
    } else {
        assert(names.take(i + 1).drop_last() =~= names.take(i));
        lemma_first_stays(names, why, i + 1);
    }
}

/// A text can be put among others that stand in their order.
pub proof fn lemma_insert_ordered(s: Seq<Seq<char>>, item: Seq<char>) -> (r: Seq<Seq<char>>)
    requires
        ascending(s),
    ensures
        ascending(r),
        r.to_set() == s.to_set().insert(item),
    decreases s.len(),
{
    if s.len() == 0 {
        let r = seq![item];
        assert forall|t: Seq<char>| r.to_set().contains(t) == s.to_set().insert(item).contains(t) by {
            if t == item {
                assert(r[0] == t);
            }
        }
        assert(r.to_set() =~= s.to_set().insert(item));
        r
    } else {
        let less = s.drop_last();
        let last = s.last();
        assert(s =~= less.push(last));
        assert forall|t: Seq<char>| s.contains(t) <==> less.contains(t) || t == last by {
            if less.contains(t) {
                let j = choose|j: int| 0 <= j < less.len() && less[j] == t;
                assert(s[j] == t);
            }
            if t == last {
                assert(s[s.len() - 1] == t);
            }
            if s.contains(t) && t != last {
                let j = choose|j: int| 0 <= j < s.len() && s[j] == t;
                assert(less[j] == t);
            }
        }
        if item == last {
            assert(s.to_set().insert(item) =~= s.to_set());
            s
        } else {
            lemma_before_total(item, last);
            if before(last, item) {
                let r = s.push(item);
                assert forall|i: int, j: int| 0 <= i < j < r.len() implies before(
                    #[trigger] r[i],
                    #[trigger] r[j],
                ) by {
                    if j == s.len() && i < s.len() - 1 {
                        lemma_before_transitive(s[i], s[s.len() - 1], item);
                    }
                }
                assert forall|t: Seq<char>| r.to_set().contains(t) == s.to_set().insert(
                    item,
                ).contains(t) by {
                    if s.contains(t) {
                        let j = choose|j: int| 0 <= j < s.len() && s[j] == t;
                        assert(r[j] == t);
                    }
                    if t == item {
                        assert(r[s.len() as int] == t);
                    }
                }
                assert(r.to_set() =~= s.to_set().insert(item));
                r
            } else {
                let inner = lemma_insert_ordered(less, item);
                let r = inner.push(last);
                assert forall|i: int, j: int| 0 <= i < j < r.len() implies before(
                    #[trigger] r[i],
                    #[trigger] r[j],
                ) by {
                    if j == inner.len() {
                        assert(inner.to_set().contains(inner[i]));
                        if inner[i] != item {
                            assert(less.to_set().contains(inner[i]));
                            let k = choose|k: int| 0 <= k < less.len() && less[k] == inner[i];
                            assert(before(s[k], s[s.len() - 1]));
                        }
                    }
                }
                assert forall|t: Seq<char>| r.to_set().contains(t) == s.to_set().insert(
                    item,
                ).contains(t) by {
                    assert(inner.to_set().contains(t) == less.to_set().insert(item).contains(t));
                    if inner.contains(t) {
                        let j = choose|j: int| 0 <= j < inner.len() && inner[j] == t;
                        assert(r[j] == t);
                    }
                    if t == last {
                        assert(r[inner.len() as int] == t);
                    }
                }
                assert(r.to_set() =~= s.to_set().insert(item));
                r
            }
        }
    }
}

/// The texts of a finite set can be listed.
pub proof fn lemma_listing_stands(set: Set<Seq<char>>)
    requires
        set.finite(),
    ensures
        ascending(listing(set)),
        listing(set).to_set() == set,
    decreases set.len(),
{
    if set.len() == 0 {
        let none = Seq::<Seq<char>>::empty();
        assert(none.to_set() =~= set);
        assert(ascending(none));
    } else {
        let item = set.choose();
        let rest = set.remove(item);
        lemma_listing_stands(rest);
        let all = lemma_insert_ordered(listing(rest), item);
        assert(all.to_set() =~= set);
        assert(ascending(all));
    }
}

/// The part of a text between two of its bytes, when both stand between
/// characters.
pub open spec fn slice(s: Seq<char>, from: nat, to: nat) -> Option<Seq<char>> {
    let bytes = vstd::utf8::encode_utf8(s);
    if from <= to <= bytes.len() && vstd::utf8::is_char_boundary(bytes, from as int)
        && vstd::utf8::is_char_boundary(bytes, to as int) {
        Some(vstd::utf8::decode_utf8(bytes.subrange(from as int, to as int)))
    } else {
        None
    }
}

/// The part of a text between two of its bytes, when both stand between
/// characters.
pub fn part<'a>(s: &'a str, from: usize, to: usize) -> (r: Option<&'a str>)
    ensures
        match r {
            Some(t) => slice(s@, from as nat, to as nat) == Some(t@),
            None => slice(s@, from as nat, to as nat) is None,
        },
{
    let ghost bytes = vstd::utf8::encode_utf8(s@);
    if from > to || to > s.as_bytes().len() || !s.is_char_boundary(from) || !s.is_char_boundary(
        to,
    ) {
        return None;
    }
    let left = s.split_at(to).0;
    proof {
        let front = bytes.subrange(0, to as int);
        vstd::utf8::encode_utf8_valid_utf8(s@);
        vstd::utf8::encode_utf8_valid_utf8(left@);
        if from < to {
            vstd::utf8::is_char_boundary_iff_not_is_continuation_byte(bytes, from as int);
            vstd::utf8::is_char_boundary_iff_not_is_continuation_byte(front, from as int);
            assert(bytes[from as int] == front[from as int]);
        } else {
            vstd::utf8::is_char_boundary_start_end_of_seq(front);
        }
    }
    let middle = left.split_at(from).1;
    proof {
        vstd::utf8::encode_utf8_decode_utf8(middle@);
        assert(bytes.subrange(0, to as int).subrange(from as int, to as int) =~= bytes.subrange(
            from as int,
            to as int,
        ));
    }
    Some(middle)
}

/// A digit of a number in base sixteen.
pub open spec fn hex_digit(n: nat) -> char {
    if n < 10 {
        (48 + n) as char
    } else {
        (87 + n) as char
    }
}

/// Bytes written in base sixteen, two digits each.
pub open spec fn hex(bytes: Seq<u8>) -> Seq<char>
    decreases bytes.len(),
{
    if bytes.len() == 0 {
        Seq::empty()
    } else {
        hex(bytes.drop_last()).push(hex_digit((bytes.last() / 16) as nat)).push(
            hex_digit((bytes.last() % 16) as nat),
        )
    }
}

/// A digit of a number in base sixteen.
fn hex_digit_of(n: u8) -> (r: char)
    requires
        n < 16,
    ensures
        r == hex_digit(n as nat),
{
    if n < 10 {
        (48u8 + n) as char
    } else {
        (87u8 + n) as char
    }
}

/// Bytes written in base sixteen, two digits each.
pub fn hex_of(bytes: &Vec<u8>) -> (r: String)
    ensures
        r@ == hex(bytes@),
{
    let mut r = String::new();
    let mut i: usize = 0;
    assert(r@ =~= hex(bytes@.take(0)));
    while i < bytes.len()
        invariant
            i <= bytes@.len(),
            r@ == hex(bytes@.take(i as int)),
        decreases bytes@.len() - i,
    {
        assert(bytes@.take(i + 1).drop_last() =~= bytes@.take(i as int));
        let b = bytes[i];
        r.push(hex_digit_of(b / 16));
        r.push(hex_digit_of(b % 16));
        i += 1;
    }
    assert(bytes@.take(i as int) =~= bytes@);
    r
}

proof fn lemma_decimal_digits(n: nat)
    ensures
        all_digits(decimal(n)),
        number(decimal(n)) == n,
    decreases n,
{
    if n < 10 {
        let s = decimal(n);
        assert(s.drop_last() =~= Seq::empty());
        assert(number(s.drop_last()) == 0);
    } else {
        lemma_decimal_digits(n / 10);
        let s = decimal(n);
        assert(s.drop_last() =~= decimal(n / 10));
        assert(n == (n / 10) * 10 + n % 10);
    }
}

/// A number that is written is read as itself.
pub proof fn lemma_decimal_is_read(n: nat)
    ensures
        natural(decimal(n)) == Some(n),
        all_digits(decimal(n)),
{
    lemma_decimal_digits(n);
}

/// A whole number that is written is read as itself, and is written without
/// white space around it.
pub proof fn lemma_signed_is_read(n: int)
    ensures
        whole(signed(n)) == Some(n),
        trim(signed(n)) == signed(n),
{
    let s = signed(n);
    let d = decimal(if n < 0 {
        (-n) as nat
    } else {
        n as nat
    });
    lemma_decimal_is_read(if n < 0 {
        (-n) as nat
    } else {
        n as nat
    });
    assert(s.last() == d.last());
    assert(is_digit(d[0]) && is_digit(d[d.len() - 1]));
    if n < 0 {
        assert(s.drop_first() =~= d);
    }
}

/// Where the first white space of a text is, or its length.
pub open spec fn first_space(s: Seq<char>) -> nat
    decreases s.len(),
{
    if s.len() == 0 || is_space(s[0]) {
        0
    } else {
        1 + first_space(s.drop_first())
    }
}

/// A text cut in two at its first white space, which is in neither part.
pub open spec fn cut(s: Seq<char>) -> Option<(Seq<char>, Seq<char>)> {
    let at = first_space(s);
    if at < s.len() {
        Some((s.take(at as int), s.skip(at as int + 1)))
    } else {
        None
    }
}

/// A text cut in two at its first white space, which is in neither part.
pub fn cut_at_space(s: &str) -> (r: Option<(String, String)>)
    ensures
        cut(s@) == (match r {
            Some((before, after)) => Some((before@, after@)),
            None => None,
        }),
{
    let cs = chars_of(s);
    let n: usize = cs.len();
    let mut i: usize = 0;
    assert(s@.skip(0) =~= s@);
    while i < n
        invariant
            i <= n == cs@.len(),
            cs@ == s@,
            first_space(s@) == i + first_space(s@.skip(i as int)),
        decreases n - i,
    {
        assert(s@.skip(i as int)[0] == s@[i as int]);
        if space(cs[i]) {
            let before = string_of(&cs, 0, i);
            let after = string_of(&cs, i + 1, n);
            assert(before@ =~= s@.take(i as int));
            assert(after@ =~= s@.skip(i + 1));
            return Some((before, after));
        }
        assert(s@.skip(i as int).drop_first() =~= s@.skip(i + 1));
        i += 1;
    }
    None
}

/// `s` without `suffix`, when it ends with it.
pub open spec fn without_suffix(s: Seq<char>, suffix: Seq<char>) -> Option<Seq<char>> {
    if finishes(s, suffix) {
        Some(s.take(s.len() - suffix.len()))
    } else {
        None
    }
}

/// `s` without `suffix`, when it ends with it.
pub fn strip_end(s: &str, suffix: &str) -> (r: Option<String>)
    ensures
        text_of(r) == without_suffix(s@, suffix@),
{
    if !ends(s, suffix) {
        return None;
    }
    let cs = chars_of(s);
    let end = chars_of(suffix);
    let n: usize = cs.len();
    let m: usize = end.len();
    let r = string_of(&cs, 0, n - m);
    assert(r@ =~= s@.take(n - m));
    Some(r)
}

/// A text without a separator is one piece.
pub proof fn lemma_split_whole(s: Seq<char>, sep: char)
    requires
        !s.contains(sep),
    ensures
        split(s, sep) == seq![s],
    decreases s.len(),
{
    if s.len() > 0 {
        let less = s.drop_last();
        assert forall|i: int| 0 <= i < less.len() implies less[i] != sep by {
            assert(less[i] == s[i]);
        }
        lemma_split_whole(less, sep);
        assert(s[s.len() - 1] != sep);
        assert(split(s, sep) =~= seq![s]) by {
            assert(less.push(s.last()) =~= s);
        }
    } else {
        assert(split(s, sep) =~= seq![s]) by {
            assert(s =~= Seq::empty());
        }
    }
}

/// The first piece of a text that does not begin with a separator begins with
/// what the text begins with.
pub proof fn lemma_split_first(s: Seq<char>, sep: char)
    requires
        s.len() > 0,
        s[0] != sep,
    ensures
        split(s, sep).len() > 0,
        split(s, sep)[0].len() > 0,
        split(s, sep)[0][0] == s[0],
    decreases s.len(),
{
    let less = s.drop_last();
    if less.len() == 0 {
        assert(split(less, sep) =~= seq![Seq::<char>::empty()]);
        assert(split(s, sep)[0] =~= seq![s[0]]);
    } else {
        lemma_split_first(less, sep);
    }
}

proof fn lemma_trim_start_spaces(s: Seq<char>)
    requires
        trim_start(s).len() == 0,
    ensures
        forall|i: int| 0 <= i < s.len() ==> is_space(#[trigger] s[i]),
    decreases s.len(),
{
    if s.len() > 0 {
        let rest = s.drop_first();
        lemma_trim_start_spaces(rest);
        assert forall|i: int| 0 <= i < s.len() implies is_space(#[trigger] s[i]) by {
            if i > 0 {
                assert(rest[i - 1] == s[i]);
            }
        }
    }
}

proof fn lemma_trim_start_stops(s: Seq<char>)
    ensures
        trim_start(s).len() > 0 ==> !is_space(trim_start(s)[0]),
    decreases s.len(),
{
    if s.len() > 0 && is_space(s[0]) {
        lemma_trim_start_stops(s.drop_first());
    }
}

proof fn lemma_trim_end_keeps(s: Seq<char>)
    requires
        s.len() > 0,
        !is_space(s[0]),
    ensures
        trim_end(s).len() > 0,
    decreases s.len(),
{
    if is_space(s.last()) {
        assert(s.drop_last()[0] == s[0]);
        lemma_trim_end_keeps(s.drop_last());
    }
}

/// A text of which nothing is left when it is trimmed is all white space.
pub proof fn lemma_trimmed_away(s: Seq<char>)
    requires
        trim(s).len() == 0,
    ensures
        forall|i: int| 0 <= i < s.len() ==> is_space(#[trigger] s[i]),
{
    lemma_trim_start_stops(s);
    if trim_start(s).len() > 0 {
        lemma_trim_end_keeps(trim_start(s));
    }
    lemma_trim_start_spaces(s);
}

/// Lines behind each other, each of them ended with a line feed.
pub open spec fn ended(lines: Seq<Seq<char>>) -> Seq<char>
    decreases lines.len(),
{
    if lines.len() == 0 {
        Seq::empty()
    } else {
        ended(lines.drop_last()) + lines.last() + seq!['\n']
    }
}

/// Whether a text can stand on a line of its own.
pub open spec fn is_line(s: Seq<char>) -> bool {
    !s.contains('\n') && !(s.len() > 0 && s.last() == '\r')
}

proof fn lemma_ended_split(all: Seq<Seq<char>>, t: Seq<char>)
    requires
        forall|i: int| 0 <= i < all.len() ==> !(#[trigger] all[i]).contains('\n'),
    ensures
        split(ended(all) + t, '\n') == all + split(t, '\n'),
    decreases all.len(),
{
    if all.len() == 0 {
        assert(ended(all) + t =~= t);
        assert(all + split(t, '\n') =~= split(t, '\n'));
    } else {
        let less = all.drop_last();
        let last = all.last();
        assert forall|i: int| 0 <= i < less.len() implies !(#[trigger] less[i]).contains('\n') by {
            assert(less[i] == all[i]);
        }
        assert(all[all.len() - 1] == last);
        let more = last + seq!['\n'] + t;
        lemma_ended_split(less, more);
        lemma_split_joins(last, t, '\n');
        lemma_split_whole(last, '\n');
        assert(ended(all) + t =~= ended(less) + more);
        assert(less + (seq![last] + split(t, '\n')) =~= all + split(t, '\n'));
    }
}

/// Lines that were written are the lines that are read.
pub proof fn lemma_ended_lines(all: Seq<Seq<char>>)
    requires
        forall|i: int| 0 <= i < all.len() ==> is_line(#[trigger] all[i]),
    ensures
        lines(ended(all)) == all,
{
    lemma_ended_split(all, Seq::empty());
    assert(ended(all) + Seq::<char>::empty() =~= ended(all));
    let pieces = split(ended(all), '\n');
    assert(split(Seq::<char>::empty(), '\n') =~= seq![Seq::<char>::empty()]);
    assert(pieces =~= all.push(Seq::empty()));
    assert(lines(ended(all)) =~= all) by {
        assert forall|i: int| 0 <= i < all.len() implies chomp(#[trigger] pieces[i]) == all[i] by {
            assert(pieces[i] == all[i]);
            assert(is_line(all[i]));
        }
    }
}

/// Lines behind each other, each of them ended with a line feed.
pub fn ended_of(all: &Vec<String>) -> (r: String)
    ensures
        r@ == ended(texts(all@)),
{
    let ghost want = texts(all@);
    let mut r = String::new();
    let n: usize = all.len();
    let mut i: usize = 0;
    assert(r@ =~= Seq::empty());
    proof {
        reveal_strlit("\n");
    }
    assert("\n"@ =~= seq!['\n']);
    while i < n
        invariant
            i <= n == all@.len(),
            want == texts(all@),
            "\n"@ == seq!['\n'],
            r@ == ended(want.take(i as int)),
        decreases n - i,
    {
        proof {
            assert(want.take(i + 1).drop_last() =~= want.take(i as int));
            assert(want.take(i + 1).last() == all@[i as int]@);
        }
        r.append(all[i].as_str());
        r.append("\n");
        i += 1;
    }
    assert(want.take(i as int) =~= want);
    r
}

/// The last digit of a number counts once and every digit before it ten times
/// what it counts in the number before.
pub proof fn law_digits_are_positional(s: Seq<char>, c: char)
    requires
        '0' <= c && c <= '9',
    ensures
        number(Seq::empty()) == 0,
        number(s.push(c)) == 10 * number(s) + (c as int - '0' as int),
{
    assert(s.push(c).drop_last() =~= s);
}

/// A number is written in digits that read as it, without a zero before them.
pub proof fn law_decimal_is_the_number(n: nat)
    ensures
        number(decimal(n)) == n,
        decimal(n).len() > 0,
        forall|i: int| 0 <= i < decimal(n).len() ==> '0' <= #[trigger] decimal(n)[i] <= '9',
        decimal(n)[0] == '0' <==> n == 0,
        n == 0 ==> decimal(n) == seq!['0'],
    decreases n,
{
    lemma_decimal_digits(n);
    assert forall|i: int| 0 <= i < decimal(n).len() implies '0' <= #[trigger] decimal(n)[i] <= '9' by {
        assert(is_digit(decimal(n)[i]));
    }
    if n >= 10 {
        law_decimal_is_the_number(n / 10);
        assert(decimal(n)[0] == decimal(n / 10)[0]);
    }
}

/// A larger number is not written shorter.
pub proof fn law_decimal_grows(a: nat, b: nat)
    requires
        a <= b,
    ensures
        decimal(a).len() <= decimal(b).len(),
    decreases b,
{
    if a >= 10 {
        law_decimal_grows(a / 10, b / 10);
    } else if b >= 10 {
        lemma_decimal_digits(b / 10);
    }
}

/// Digits that do not begin with a zero are what their number is written as.
pub proof fn law_number_is_written_back(s: Seq<char>)
    requires
        all_digits(s),
        s[0] != '0',
    ensures
        decimal(number(s)) == s,
    decreases s.len(),
{
    let less = s.drop_last();
    let c = s.last();
    assert(is_digit(s[s.len() - 1]));
    assert(is_digit(s[0]));
    if less.len() == 0 {
        assert(number(less) == 0);
        assert(decimal(number(s)) =~= s);
    } else {
        assert forall|i: int| 0 <= i < less.len() implies is_digit(#[trigger] less[i]) by {
            assert(less[i] == s[i]);
        }
        assert(less[0] == s[0]);
        law_number_is_written_back(less);
        law_decimal_is_the_number(number(less));
        assert(number(s) == number(less) * 10 + (c as u32 - '0' as u32));
        assert(number(s) / 10 == number(less));
        assert(digit(number(s)) == c);
        assert(decimal(number(s)) =~= s);
    }
}

/// A text reads as a whole number when it is digits after at most one sign,
/// and a minus sign turns the number round.
pub proof fn law_whole_numbers_take_one_sign(s: Seq<char>)
    requires
        all_digits(s),
    ensures
        natural(s) == Some(number(s)),
        natural(seq!['+'] + s) == Some(number(s)),
        natural(seq!['-'] + s) is None,
        whole(s) == Some(number(s) as int),
        whole(seq!['+'] + s) == Some(number(s) as int),
        whole(seq!['-'] + s) == Some(-number(s)),
        whole(Seq::empty()) is None,
        forall|c: char|
            !('0' <= c && c <= '9') && c != '+' && c != '-' ==> (#[trigger] whole(seq![c] + s)) is None,
        forall|c: char| !('0' <= c && c <= '9') ==> (#[trigger] whole(s.push(c))) is None,
{
    assert((seq!['+'] + s).drop_first() =~= s);
    assert((seq!['-'] + s).drop_first() =~= s);
    assert(is_digit(s[0]));
    assert(!is_digit((seq!['+'] + s)[0]));
    assert(!is_digit((seq!['-'] + s)[0]));
    assert forall|c: char| !('0' <= c && c <= '9') && c != '+' && c != '-' implies (#[trigger] whole(
        seq![c] + s,
    )) is None by {
        assert(!is_digit((seq![c] + s)[0]));
    }
    assert forall|c: char| !('0' <= c && c <= '9') implies (#[trigger] whole(s.push(c))) is None by {
        let t = s.push(c);
        assert(!is_digit(t[t.len() - 1]));
        assert(t[0] == s[0]);
    }
}

/// A text is its pieces with the separator between each two of them, and no
/// piece holds a separator; a text without one is a piece by itself.
pub proof fn law_split_is_undone(s: Seq<char>, sep: char)
    ensures
        split(s, sep).len() > 0,
        join(split(s, sep), seq![sep]) == s,
        forall|i: int, j: int|
            0 <= i < split(s, sep).len() && 0 <= j < split(s, sep)[i].len()
                ==> #[trigger] split(s, sep)[i][j] != sep,
        (forall|i: int| 0 <= i < s.len() ==> s[i] != sep) ==> split(s, sep) == seq![s],
{
    lemma_split_some(s, sep);
    lemma_split_join(s, sep);
    lemma_split_plain(s, sep);
    assert forall|i: int, j: int|
        0 <= i < split(s, sep).len() && 0 <= j < split(s, sep)[i].len()
            implies #[trigger] split(s, sep)[i][j] != sep by {
        assert(!split(s, sep)[i].contains(sep));
    }
    if forall|i: int| 0 <= i < s.len() ==> s[i] != sep {
        lemma_split_whole(s, sep);
    }
}

/// One more part comes behind the separator, and a part by itself has none.
pub proof fn law_join_puts_one_between(parts: Seq<Seq<char>>, part: Seq<char>, sep: Seq<char>)
    ensures
        join(Seq::empty(), sep).len() == 0,
        join(seq![part], sep) == part,
        parts.len() > 0 ==> join(parts.push(part), sep) == join(parts, sep) + sep + part,
{
    if parts.len() > 0 {
        assert(parts.push(part).drop_last() =~= parts);
    }
}

/// What is trimmed away is white space, and what is left neither begins nor
/// ends with any.
pub proof fn law_trim_takes_the_space_around(s: Seq<char>) -> (r: (int, int))
    ensures
        0 <= r.0 <= r.1 <= s.len(),
        trim(s) == s.subrange(r.0, r.1),
        forall|i: int| 0 <= i < r.0 || r.1 <= i < s.len() ==> is_space(#[trigger] s[i]),
        r.0 < r.1 ==> !is_space(s[r.0]) && !is_space(s[r.1 - 1]),
{
    let from = lemma_trim_start_at(s);
    let rest = trim_start(s);
    let to = lemma_trim_end_at(rest);
    assert(trim(s) =~= s.subrange(from, from + to));
    assert forall|i: int| 0 <= i < from || from + to <= i < s.len() implies is_space(
        #[trigger] s[i],
    ) by {
        if i >= from + to {
            assert(rest[i - from] == s[i]);
        }
    }
    if to > 0 {
        assert(rest[0] == s[from]);
        assert(rest[to - 1] == s[from + to - 1]);
    }
    (from, from + to)
}

proof fn lemma_trim_start_at(s: Seq<char>) -> (from: int)
    ensures
        0 <= from <= s.len(),
        trim_start(s) == s.skip(from),
        forall|i: int| 0 <= i < from ==> is_space(#[trigger] s[i]),
        from < s.len() ==> !is_space(s[from]),
    decreases s.len(),
{
    if s.len() > 0 && is_space(s[0]) {
        let rest = s.drop_first();
        let from = lemma_trim_start_at(rest);
        assert(rest.skip(from) =~= s.skip(from + 1));
        assert forall|i: int| 0 <= i < from + 1 implies is_space(#[trigger] s[i]) by {
            if i > 0 {
                assert(rest[i - 1] == s[i]);
            }
        }
        from + 1
    } else {
        assert(s.skip(0) =~= s);
        0
    }
}

proof fn lemma_trim_end_at(s: Seq<char>) -> (to: int)
    ensures
        0 <= to <= s.len(),
        trim_end(s) == s.take(to),
        forall|i: int| to <= i < s.len() ==> is_space(#[trigger] s[i]),
        to > 0 ==> !is_space(s[to - 1]),
    decreases s.len(),
{
    if s.len() > 0 && is_space(s.last()) {
        let less = s.drop_last();
        let to = lemma_trim_end_at(less);
        assert(less.take(to) =~= s.take(to));
        assert forall|i: int| to <= i < s.len() implies is_space(#[trigger] s[i]) by {
            if i < less.len() {
                assert(less[i] == s[i]);
            }
        }
        to
    } else {
        assert(s.take(s.len() as int) =~= s);
        s.len() as int
    }
}

/// Among the characters of ASCII white space is the space, the tabs, the line
/// feed, the form feed and the carriage return.
pub proof fn law_plain_white_space(c: char)
    requires
        c as u32 <= 127,
    ensures
        is_space(c) <==> c == ' ' || c == '\t' || c == '\n' || c == '\u{b}' || c == '\u{c}' || c
            == '\r',
{
    assert(is_space(c) ==> 9 <= c as u32 <= 13 || c == ' ');
}

/// The first character in which two texts differ decides which comes before
/// the other, and a text comes before a longer one that it begins.
pub proof fn law_the_first_difference_decides(a: Seq<char>, b: Seq<char>, i: int)
    requires
        0 <= i <= a.len(),
        i <= b.len(),
        forall|j: int| 0 <= j < i ==> a[j] == b[j],
    ensures
        i < a.len() && i < b.len() && a[i] != b[i] ==> (before(a, b) <==> a[i] < b[i]),
        i == a.len() ==> (before(a, b) <==> a.len() < b.len()),
    decreases a.len(),
{
    if i > 0 {
        let x = a.drop_first();
        let y = b.drop_first();
        assert(a[0] == b[0]);
        assert forall|j: int| 0 <= j < i - 1 implies x[j] == y[j] by {
            assert(a[j + 1] == b[j + 1]);
        }
        law_the_first_difference_decides(x, y, i - 1);
    }
}

/// The texts of a set are listed each once and in their order.
pub proof fn law_a_listing_is_in_order(set: Set<Seq<char>>)
    requires
        set.finite(),
    ensures
        forall|t: Seq<char>| listing(set).contains(t) <==> #[trigger] set.contains(t),
        forall|i: int, j: int|
            0 <= i < j < listing(set).len() ==> before(
                #[trigger] listing(set)[i],
                #[trigger] listing(set)[j],
            ) && listing(set)[i] != listing(set)[j],
{
    lemma_listing_stands(set);
    assert forall|t: Seq<char>| listing(set).contains(t) <==> #[trigger] set.contains(t) by {
        assert(listing(set).to_set().contains(t) <==> set.contains(t));
    }
    assert forall|i: int, j: int| 0 <= i < j < listing(set).len() implies before(
        #[trigger] listing(set)[i],
        #[trigger] listing(set)[j],
    ) && listing(set)[i] != listing(set)[j] by {
        lemma_before_irreflexive(listing(set)[i]);
    }
}

/// Every byte is two digits of base sixteen, the high one first.
pub proof fn law_hex_is_two_digits_a_byte(bytes: Seq<u8>, i: int)
    requires
        0 <= i < bytes.len(),
    ensures
        hex(bytes).len() == 2 * bytes.len(),
        "0123456789abcdef"@[bytes[i] as int / 16] == hex(bytes)[2 * i],
        "0123456789abcdef"@[bytes[i] as int % 16] == hex(bytes)[2 * i + 1],
    decreases bytes.len(),
{
    reveal_strlit("0123456789abcdef");
    let less = bytes.drop_last();
    let b = bytes.last();
    lemma_hex_length(bytes);
    lemma_hex_length(less);
    if i < less.len() {
        law_hex_is_two_digits_a_byte(less, i);
        assert(less[i] == bytes[i]);
        assert(hex(bytes)[2 * i] == hex(less)[2 * i]);
        assert(hex(bytes)[2 * i + 1] == hex(less)[2 * i + 1]);
    } else {
        assert(bytes[i] == b);
        let high = b as int / 16;
        let low = b as int % 16;
        assert(0 <= high < 16 && 0 <= low < 16);
        assert(hex(bytes)[2 * i] == hex_digit(high as nat));
        assert(hex(bytes)[2 * i + 1] == hex_digit(low as nat));
    }
}

proof fn lemma_hex_length(bytes: Seq<u8>)
    ensures
        hex(bytes).len() == 2 * bytes.len(),
    decreases bytes.len(),
{
    if bytes.len() > 0 {
        lemma_hex_length(bytes.drop_last());
    }
}

/// The last digit of a number in octal is what is left of it by eight, and the
/// digits before are those of what eight goes into it.
pub proof fn law_octal_counts_by_eight(n: nat)
    ensures
        octal(n).len() > 0,
        "01234567"@[n as int % 8] == octal(n).last(),
        n < 8 ==> octal(n).len() == 1,
        n >= 8 ==> octal(n).drop_last() == octal(n / 8),
{
    reveal_strlit("01234567");
    let last: nat = n % 8;
    assert(last < 8);
    assert(digit(last) == ('0' as u32 + last) as char);
    if n >= 8 {
        assert(octal(n).drop_last() =~= octal(n / 8));
    }
}

/// A line ends with a line feed, or with a carriage return and a line feed, and
/// neither is in it; what follows is read on its own.
pub proof fn law_a_line_ends_at_its_line_feed(line: Seq<char>, rest: Seq<char>)
    requires
        forall|i: int| 0 <= i < line.len() ==> line[i] != '\n',
        line.len() > 0 ==> line.last() != '\r',
    ensures
        lines(line + seq!['\n'] + rest) == seq![line] + lines(rest),
        lines(line + seq!['\r', '\n'] + rest) == seq![line] + lines(rest),
        line.len() > 0 ==> lines(line) == seq![line],
        lines(Seq::empty()).len() == 0,
{
    let back = line.push('\r');
    lemma_split_whole(line, '\n');
    assert forall|i: int| 0 <= i < back.len() implies back[i] != '\n' by {
        if i < line.len() {
            assert(back[i] == line[i]);
        }
    }
    lemma_split_whole(back, '\n');
    lemma_split_joins(line, rest, '\n');
    lemma_split_joins(back, rest, '\n');
    lemma_split_some(rest, '\n');
    assert(line + seq!['\r', '\n'] + rest =~= back + seq!['\n'] + rest);
    assert(back.drop_last() =~= line);
    let pieces = split(rest, '\n');
    let one = seq![line] + pieces;
    let two = seq![back] + pieces;
    assert(one.last() == pieces.last() && two.last() == pieces.last());
    assert(lines(line + seq!['\n'] + rest) =~= seq![line] + lines(rest));
    assert(lines(line + seq!['\r', '\n'] + rest) =~= seq![line] + lines(rest));
    if line.len() > 0 {
        assert(lines(line) =~= seq![line]);
    }
    assert(split(Seq::<char>::empty(), '\n') =~= seq![Seq::<char>::empty()]);
}

/// The first name that there is a complaint about is the one that is
/// complained of, and there is no complaint only if there is none of any name.
pub proof fn law_the_first_complaint_is_given(
    names: Seq<Seq<char>>,
    why: spec_fn(Seq<char>) -> Option<Seq<char>>,
)
    ensures
        first_of(names, why) is None <==> forall|i: int|
            0 <= i < names.len() ==> why(#[trigger] names[i]) is None,
        first_of(names, why) matches Some(e) ==> exists|i: int|
            #![trigger names[i]]
            0 <= i < names.len() && why(names[i]) == Some(e) && forall|j: int|
                0 <= j < i ==> why(#[trigger] names[j]) is None,
    decreases names.len(),
{
    if names.len() > 0 {
        let less = names.drop_last();
        let n: int = names.len() - 1;
        law_the_first_complaint_is_given(less, why);
        assert(forall|i: int| 0 <= i < n ==> #[trigger] less[i] == names[i]);
        match first_of(less, why) {
            Some(e) => {
                let i = choose|i: int|
                    #![trigger less[i]]
                    0 <= i < less.len() && why(less[i]) == Some(e) && forall|j: int|
                        0 <= j < i ==> why(#[trigger] less[j]) is None;
                assert(names[i] == less[i]);
                assert forall|j: int| 0 <= j < i implies why(#[trigger] names[j]) is None by {
                    assert(less[j] == names[j]);
                }
            },
            None => {
                assert forall|j: int| 0 <= j < n implies why(#[trigger] names[j]) is None by {
                    assert(less[j] == names[j]);
                }
                assert(names[n] == names.last());
            },
        }
    }
}

/// A text is cut at its first white space, which is in neither part.
pub proof fn law_a_text_is_cut_at_its_first_space(a: Seq<char>, c: char, b: Seq<char>)
    requires
        forall|i: int| 0 <= i < a.len() ==> !is_space(#[trigger] a[i]),
        is_space(c),
    ensures
        cut(a + seq![c] + b) == Some((a, b)),
        cut(a) is None,
    decreases a.len(),
{
    let s = a + seq![c] + b;
    lemma_first_space(s, a.len());
    lemma_no_space(a);
    assert(s.take(a.len() as int) =~= a);
    assert(s.skip(a.len() as int + 1) =~= b);
}

proof fn lemma_first_space(s: Seq<char>, n: nat)
    requires
        n < s.len(),
        is_space(s[n as int]),
        forall|i: int| 0 <= i < n ==> !is_space(#[trigger] s[i]),
    ensures
        first_space(s) == n,
    decreases n,
{
    if n > 0 {
        let rest = s.drop_first();
        assert(!is_space(s[0]));
        assert forall|i: int| 0 <= i < n - 1 implies !is_space(#[trigger] rest[i]) by {
            assert(rest[i] == s[i + 1]);
        }
        lemma_first_space(rest, (n - 1) as nat);
    }
}

proof fn lemma_no_space(s: Seq<char>)
    requires
        forall|i: int| 0 <= i < s.len() ==> !is_space(#[trigger] s[i]),
    ensures
        first_space(s) == s.len(),
    decreases s.len(),
{
    if s.len() > 0 {
        let rest = s.drop_first();
        assert(!is_space(s[0]));
        assert forall|i: int| 0 <= i < rest.len() implies !is_space(#[trigger] rest[i]) by {
            assert(rest[i] == s[i + 1]);
        }
        lemma_no_space(rest);
    }
}

/// What a text begins with can be taken off it, and so can what it ends with,
/// and nothing else can.
pub proof fn law_a_prefix_is_taken_off(prefix: Seq<char>, s: Seq<char>, t: Seq<char>)
    ensures
        begins(prefix + s, prefix),
        finishes(s + prefix, prefix),
        without_prefix(prefix + s, prefix) == Some(s),
        without_suffix(s + prefix, prefix) == Some(s),
        without_prefix(t, prefix) matches Some(r) ==> t == prefix + r,
        without_suffix(t, prefix) matches Some(r) ==> t == r + prefix,
        begins(t, prefix) <==> without_prefix(t, prefix) is Some,
        finishes(t, prefix) <==> without_suffix(t, prefix) is Some,
{
    let a = prefix + s;
    let b = s + prefix;
    assert(a.subrange(0, prefix.len() as int) =~= prefix);
    assert(rest(a, prefix.len()) =~= s);
    assert(b.subrange(s.len() as int, b.len() as int) =~= prefix);
    assert(b.take(s.len() as int) =~= s);
    if begins(t, prefix) {
        assert(t =~= t.subrange(0, prefix.len() as int) + rest(t, prefix.len()));
    }
    if finishes(t, prefix) {
        let n = t.len() - prefix.len();
        assert(t =~= t.take(n) + t.subrange(n, t.len() as int));
    }
}

/// A text holds another where it stands between two parts of it, and nowhere
/// else.
pub proof fn law_a_text_holds_its_parts(a: Seq<char>, pattern: Seq<char>, b: Seq<char>, s: Seq<char>)
    ensures
        holds(a + pattern + b, pattern),
        holds(s, pattern) ==> exists|i: int|
            #![trigger s.take(i)]
            0 <= i <= s.len() - pattern.len() && s == s.take(i) + pattern + s.skip(
                i + pattern.len(),
            ),
{
    let whole = a + pattern + b;
    let n = a.len() as int;
    assert(whole.subrange(n, n + pattern.len()) =~= pattern);
    assert(stands_at(whole, pattern, n));
    if holds(s, pattern) {
        let i = choose|i: int| stands_at(s, pattern, i);
        assert(s =~= s.take(i) + s.subrange(i, i + pattern.len()) + s.skip(i + pattern.len()));
    }
}

/// Lines that are written are ended one by one.
pub proof fn law_every_line_is_ended(lines: Seq<Seq<char>>, line: Seq<char>)
    ensures
        ended(Seq::empty()).len() == 0,
        ended(lines.push(line)) == ended(lines) + line + seq!['\n'],
{
    assert(lines.push(line).drop_last() =~= lines);
}

/// A part of a text between two of its bytes is those bytes.
pub proof fn law_a_part_is_its_bytes(s: Seq<char>, from: nat, to: nat)
    ensures
        slice(s, from, to) matches Some(t) ==> from <= to <= vstd::utf8::encode_utf8(s).len()
            && vstd::utf8::encode_utf8(t) == vstd::utf8::encode_utf8(s).subrange(
            from as int,
            to as int,
        ),
        slice(s, 0, vstd::utf8::encode_utf8(s).len()) == Some(s),
{
    let bytes = vstd::utf8::encode_utf8(s);
    vstd::utf8::encode_utf8_valid_utf8(s);
    vstd::utf8::is_char_boundary_start_end_of_seq(bytes);
    assert(bytes.subrange(0, bytes.len() as int) =~= bytes);
    vstd::utf8::encode_utf8_decode_utf8(s);
    if slice(s, from, to) is Some {
        let front = bytes.subrange(0, to as int);
        vstd::utf8::valid_utf8_split(bytes, to as int);
        if from < to {
            vstd::utf8::is_char_boundary_iff_not_is_continuation_byte(bytes, from as int);
            vstd::utf8::is_char_boundary_iff_not_is_continuation_byte(front, from as int);
            assert(bytes[from as int] == front[from as int]);
        } else {
            vstd::utf8::is_char_boundary_start_end_of_seq(front);
        }
        vstd::utf8::valid_utf8_split(front, from as int);
        let middle = bytes.subrange(from as int, to as int);
        assert(front.subrange(from as int, front.len() as int) =~= middle);
        vstd::utf8::decode_utf8_encode_utf8(middle);
    }
}

} // verus!
