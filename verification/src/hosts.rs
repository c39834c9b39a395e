//! The hosts that one run reaches.
//!
//! A fleet is named by host, by a group of hosts, by a range that is counted
//! out between two ends, by a shell pattern, and by a `!` that takes some back
//! out.  A pattern selects among the hosts that the inventory names and never
//! introduces one; a range is the other way round.

use vstd::prelude::*;

use crate::document;
use crate::text;
use crate::var;

verus! {

/// What a range steps through between its two ends.
#[allow(inconsistent_fields)]
#[derive(Clone, Copy, Debug, PartialEq, Eq, Structural)]
pub enum Count {
    /// Numbers, each written with at least `width` digits.
    Numbers { low: u64, high: u64, width: usize },
    /// Letters, of the case they were written in.
    Letters { low: u8, high: u8 },
}

/// A number written with at least `width` digits.
pub open spec fn padded(n: nat, width: nat) -> Seq<char> {
    let d = text::decimal(n);
    if d.len() >= width {
        d
    } else {
        Seq::new((width - d.len()) as nat, |i: int| '0') + d
    }
}

/// Whether a count runs the way it was written.
pub open spec fn ascends(c: Count) -> bool {
    match c {
        Count::Numbers { low, high, .. } => low <= high,
        Count::Letters { low, high } => low <= high,
    }
}

/// The steps of a count, written the way its ends were.
pub open spec fn steps(c: Count) -> Seq<Seq<char>> {
    if !ascends(c) {
        Seq::empty()
    } else {
        match c {
            Count::Numbers { low, high, width } => Seq::new(
                (high - low + 1) as nat,
                |i: int| padded((low + i) as nat, width as nat),
            ),
            Count::Letters { low, high } => Seq::new(
                (high - low + 1) as nat,
                |i: int| seq![((low + i) as u8) as char],
            ),
        }
    }
}

/// The number written with at least `width` digits.
fn pad(n: u64, width: usize) -> (r: String)
    ensures
        r@ == padded(n as nat, width as nat),
{
    let d = text::decimal_of(n);
    let size: usize = text::chars_of(d.as_str()).len();
    if size >= width {
        return d;
    }
    let mut r = String::new();
    let mut i: usize = 0;
    while i < width - size
        invariant
            i <= width - size,
            size < width,
            r@ == Seq::new(i as nat, |i: int| '0'),
        decreases width - i,
    {
        r.push('0');
        assert(r@ =~= Seq::new((i + 1) as nat, |i: int| '0'));
        i += 1;
    }
    r.append(d.as_str());
    r
}

impl Count {
    /// Whether the count runs the way it was written.
    pub fn ascends(self) -> (r: bool)
        ensures
            r == ascends(self),
    {
        match self {
            Count::Numbers { low, high, .. } => low <= high,
            Count::Letters { low, high } => low <= high,
        }
    }

    /// Every step from one end to the other.
    pub fn steps(self) -> (r: Vec<String>)
        ensures
            text::texts(r@) == steps(self),
    {
        let mut r: Vec<String> = Vec::new();
        if !self.ascends() {
            assert(text::texts(r@) =~= steps(self));
            return r;
        }
        match self {
            Count::Numbers { low, high, width } => {
                let mut at: u64 = low;
                r.push(pad(low, width));
                while at < high
                    invariant
                        low <= at <= high,
                        r@.len() == at - low + 1,
                        forall|j: int|
                            0 <= j < r@.len() ==> (#[trigger] r@[j])@ == padded(
                                (low + j) as nat,
                                width as nat,
                            ),
                    decreases high - at,
                {
                    at += 1;
                    r.push(pad(at, width));
                }
            },
            Count::Letters { low, high } => {
                let mut at: u8 = low;
                let mut s = String::new();
                s.push(low as char);
                assert(s@ =~= seq![low as char]);
                r.push(s);
                while at < high
                    invariant
                        low <= at <= high,
                        r@.len() == at - low + 1,
                        forall|j: int|
                            0 <= j < r@.len() ==> (#[trigger] r@[j])@ == seq![
                                ((low + j) as u8) as char,
                            ],
                    decreases high - at,
                {
                    at += 1;
                    let mut s = String::new();
                    s.push(at as char);
                    assert(s@ =~= seq![at as char]);
                    r.push(s);
                }
            },
        }
        assert(text::texts(r@) =~= steps(self));
        r
    }
}

/// Whether a character is a small letter.
pub open spec fn is_lower(c: char) -> bool {
    'a' <= c && c <= 'z'
}

/// Whether a character is a capital letter.
pub open spec fn is_upper(c: char) -> bool {
    'A' <= c && c <= 'Z'
}

/// The count that lies between two ends, if the two are ends of one.
pub open spec fn counted(low: Seq<char>, high: Seq<char>) -> Option<Count> {
    if low.len() == 0 || high.len() == 0 {
        None
    } else if text::all_digits(low) && text::all_digits(high) {
        if text::number(low) <= u64::MAX && text::number(high) <= u64::MAX {
            Some(
                Count::Numbers {
                    low: text::number(low) as u64,
                    high: text::number(high) as u64,
                    width: if low[0] == '0' {
                        low.len() as usize
                    } else {
                        1
                    },
                },
            )
        } else {
            None
        }
    } else if low.len() == 1 && high.len() == 1 && (is_lower(low[0]) && is_lower(high[0])
        || is_upper(low[0]) && is_upper(high[0])) {
        Some(Count::Letters { low: low[0] as u8, high: high[0] as u8 })
    } else {
        None
    }
}

/// Whether a text is made of digits.
fn digits(cs: &Vec<char>) -> (r: bool)
    ensures
        r == text::all_digits(cs@),
{
    let mut i: usize = 0;
    while i < cs.len()
        invariant
            i <= cs@.len(),
            forall|j: int| 0 <= j < i ==> text::is_digit(#[trigger] cs@[j]),
        decreases cs@.len() - i,
    {
        if text::digit_value(cs[i]).is_none() {
            return false;
        }
        i += 1;
    }
    cs.len() > 0
}

/// The count that lies between two ends, if the two are ends of one.
pub fn count(low: &str, high: &str) -> (r: Option<Count>)
    ensures
        r == counted(low@, high@),
{
    let a = text::chars_of(low);
    let b = text::chars_of(high);
    if a.len() == 0 || b.len() == 0 {
        return None;
    }
    if digits(&a) && digits(&b) {
        match (text::read_natural(low), text::read_natural(high)) {
            (Some(low), Some(high)) => {
                let width: usize = if a[0] == '0' {
                    a.len()
                } else {
                    1
                };
                Some(Count::Numbers { low, high, width })
            },
            _ => None,
        }
    } else if a.len() == 1 && b.len() == 1 {
        let x = a[0];
        let y = b[0];
        if ('a' <= x && x <= 'z' && 'a' <= y && y <= 'z') || ('A' <= x && x <= 'Z' && 'A' <= y && y
            <= 'Z') {
            Some(Count::Letters { low: x as u8, high: y as u8 })
        } else {
            None
        }
    } else {
        None
    }
}

/// The first place from `from` on where a character stands.
pub open spec fn next_of(s: Seq<char>, c: char, from: int) -> Option<int>
    decreases s.len() - from,
{
    if from < 0 || from >= s.len() {
        None
    } else if s[from] == c {
        Some(from)
    } else {
        next_of(s, c, from + 1)
    }
}

/// A range taken apart: what comes before the count, what comes after it, and
/// the count.
pub struct Span {
    pub prefix: Seq<char>,
    pub suffix: Seq<char>,
    pub count: Count,
}

/// The count that is written between two brackets.
pub open spec fn counted_in(inner: Seq<char>) -> Option<Count> {
    match next_of(inner, ':', 0) {
        Some(colon) => counted(
            inner.subrange(0, colon),
            inner.subrange(colon + 1, inner.len() as int),
        ),
        None => None,
    }
}

/// The first range that a term holds in the brackets from `from` on.
pub open spec fn span_from(term: Seq<char>, from: nat) -> Option<Span>
    decreases term.len() - from,
{
    match next_of(term, '[', from as int) {
        None => None,
        Some(open) => match next_of(term, ']', open) {
            None => None,
            Some(close) => match counted_in(term.subrange(open + 1, close)) {
                Some(count) => Some(
                    Span {
                        prefix: term.subrange(0, open),
                        suffix: term.subrange(close + 1, term.len() as int),
                        count,
                    },
                ),
                None => {
                    proof {
                        lemma_next_of(term, '[', from as int);
                    }
                    span_from(term, (open + 1) as nat)
                },
            },
        },
    }
}

/// The range that a term holds, if it holds one.
pub open spec fn span(term: Seq<char>) -> Option<Span> {
    span_from(term, 0)
}

/// The names that a range stands for.
pub open spec fn span_names(r: Span) -> Seq<Seq<char>> {
    let all = steps(r.count);
    Seq::new(all.len(), |i: int| r.prefix + all[i] + r.suffix)
}

pub proof fn lemma_next_of(s: Seq<char>, c: char, from: int)
    requires
        0 <= from,
    ensures
        match next_of(s, c, from) {
            Some(i) => from <= i < s.len() && s[i] == c && forall|j: int| from <= j < i ==> s[j] != c,
            None => forall|j: int| from <= j < s.len() ==> s[j] != c,
        },
    decreases s.len() - from,
{
    if from < s.len() && s[from] != c {
        lemma_next_of(s, c, from + 1);
    }
}

/// The first place from `from` on where a character stands.
fn find_from(cs: &Vec<char>, c: char, from: usize) -> (r: Option<usize>)
    ensures
        match r {
            Some(i) => next_of(cs@, c, from as int) == Some(i as int) && from <= i < cs@.len(),
            None => next_of(cs@, c, from as int) is None,
        },
{
    let mut i: usize = from;
    while i < cs.len()
        invariant
            from <= i,
            next_of(cs@, c, from as int) == next_of(cs@, c, i as int),
        decreases cs@.len() - i,
    {
        if cs[i] == c {
            return Some(i);
        }
        i += 1;
    }
    None
}

/// A run of machines that are named alike but for one part that counts.
pub struct Range {
    pub prefix: String,
    pub suffix: String,
    pub count: Count,
}

impl View for Range {
    type V = Span;

    open spec fn view(&self) -> Span {
        Span { prefix: self.prefix@, suffix: self.suffix@, count: self.count }
    }
}

impl Range {
    /// Every name that the range stands for.
    pub fn names(&self) -> (r: Vec<String>)
        ensures
            text::texts(r@) == span_names(self@),
    {
        let all = self.count.steps();
        let mut r: Vec<String> = Vec::new();
        let mut i: usize = 0;
        while i < all.len()
            invariant
                i <= all@.len(),
                text::texts(all@) == steps(self.count),
                r@.len() == i,
                forall|j: int|
                    0 <= j < i ==> (#[trigger] r@[j])@ == self.prefix@ + steps(self.count)[j]
                        + self.suffix@,
            decreases all@.len() - i,
        {
            let mut name = self.prefix.clone();
            name.append(all[i].as_str());
            name.append(self.suffix.as_str());
            assert(steps(self.count)[i as int] == all@[i as int]@);
            r.push(name);
            i += 1;
        }
        assert(text::texts(r@) =~= span_names(self@));
        r
    }
}

/// The count that is written between two brackets.
fn count_in(inner: &Vec<char>) -> (r: Option<Count>)
    ensures
        r == counted_in(inner@),
{
    let size: usize = inner.len();
    match find_from(inner, ':', 0) {
        Some(colon) => {
            let low = text::string_of(inner, 0, colon);
            let high = text::string_of(inner, colon + 1, size);
            count(low.as_str(), high.as_str())
        },
        None => None,
    }
}

/// The range that a term holds, if it holds one.  Two ends and a colon
/// between brackets are a count, and everything else is the class of
/// characters that a shell pattern writes there.
pub fn range(term: &str) -> (r: Option<Range>)
    ensures
        match r {
            Some(r) => span(term@) == Some(r@),
            None => span(term@) is None,
        },
{
    let cs = text::chars_of(term);
    let mut from: usize = 0;
    loop
        invariant
            cs@ == term@,
            from <= cs@.len(),
            span(term@) == span_from(term@, from as nat),
        decreases cs@.len() - from,
    {
        let open: usize = match find_from(&cs, '[', from) {
            Some(open) => open,
            None => {
                return None;
            },
        };
        let close: usize = match find_from(&cs, ']', open) {
            Some(close) => close,
            None => {
                return None;
            },
        };
        proof {
            lemma_next_of(cs@, '[', from as int);
            lemma_next_of(cs@, ']', open as int);
            assert(cs@[open as int] == '[');
            assert(open < close < cs@.len());
        }
        let end: usize = cs.len();
        let inner = text::chars_of(text::string_of(&cs, open + 1, close).as_str());
        match count_in(&inner) {
            Some(count) => {
                return Some(
                    Range {
                        prefix: text::string_of(&cs, 0, open),
                        suffix: text::string_of(&cs, close + 1, end),
                        count,
                    },
                );
            },
            None => {},
        }
        from = open + 1;
    }
}

/// `glob::Pattern` is a shell pattern, ready to be matched.
#[verifier::external_type_specification]
#[verifier::external_body]
pub struct ExPattern(glob::Pattern);

/// What `glob` has to say against a shell pattern, if anything.
pub uninterp spec fn glob_complaint(pattern: Seq<char>) -> Option<Seq<char>>;

/// The text that a `glob::Pattern` was made from.
pub uninterp spec fn glob_source(pattern: glob::Pattern) -> Seq<char>;

/// Whether `glob` finds that a name matches a shell pattern.
pub uninterp spec fn glob_matches(pattern: Seq<char>, name: Seq<char>) -> bool;

/// `glob::Pattern::new` makes a pattern from a text, or says what is wrong
/// with it.
#[verifier::external_body]
fn shell_pattern(pattern: &str) -> (r: Result<glob::Pattern, String>)
    ensures
        glob_complaint(pattern@) == (match r {
            Ok(_) => None,
            Err(e) => Some(e@),
        }),
        r matches Ok(made) ==> glob_source(made) == pattern@,
{
    glob::Pattern::new(pattern).map_err(|e| e.to_string())
}

/// `glob::Pattern::matches` matches a name against the text that the pattern
/// was made from.
#[verifier::external_body]
fn pattern_matches(pattern: &glob::Pattern, name: &str) -> (r: bool)
    ensures
        r == glob_matches(glob_source(*pattern), name@),
{
    pattern.matches(name)
}

/// Whether a term is written with what a shell pattern is written with.
pub open spec fn is_wild(term: Seq<char>) -> bool {
    exists|i: int| 0 <= i < term.len() && (#[trigger] term[i] == '*' || term[i] == '?' || term[i] == '[')
}

/// Whether a term is written with what a shell pattern is written with.
fn wild(term: &str) -> (r: bool)
    ensures
        r == is_wild(term@),
{
    let cs = text::chars_of(term);
    let mut i: usize = 0;
    while i < cs.len()
        invariant
            i <= cs@.len(),
            cs@ == term@,
            forall|j: int|
                0 <= j < i ==> !(#[trigger] cs@[j] == '*' || cs@[j] == '?' || cs@[j] == '['),
        decreases cs@.len() - i,
    {
        if cs[i] == '*' || cs[i] == '?' || cs[i] == '[' {
            return true;
        }
        i += 1;
    }
    false
}

/// The groups of hosts, and where they were read from.
pub struct Fleet {
    pub groups: Map<Seq<char>, Seq<Seq<char>>>,
    pub path: Seq<char>,
}

/// The groups of hosts, and the file that they came from, or would have come
/// from.
pub struct Inventory {
    pub groups: Vec<(String, Vec<String>)>,
    pub path: String,
}

impl View for Inventory {
    type V = Fleet;

    open spec fn view(&self) -> Fleet {
        Fleet { groups: document::lists_of(self.groups@), path: self.path@ }
    }
}

/// Whether a member of a group names a host: it is no group, and it is the
/// host itself or a range that counts out a name which does.  A name that a
/// count produced may hold a second range, so two of them are every pair.
pub open spec fn names_host(f: Fleet, member: Seq<char>, host: Seq<char>) -> bool
    decreases brackets(member),
    via names_host_decreases
{
    &&& !f.groups.dom().contains(member)
    &&& match span(member) {
        Some(r) => exists|i: int|
            0 <= i < span_names(r).len() && names_host(f, #[trigger] span_names(r)[i], host),
        None => !is_wild(member) && host == member,
    }
}

#[via_fn]
proof fn names_host_decreases(f: Fleet, member: Seq<char>, host: Seq<char>) {
    if let Some(r) = span(member) {
        assert forall|i: int| 0 <= i < span_names(r).len() implies brackets(
            #[trigger] span_names(r)[i],
        ) < brackets(member) by {
            lemma_span_names(member, i);
        }
    }
}

/// Whether the inventory names a host.
pub open spec fn is_host(f: Fleet, host: Seq<char>) -> bool {
    exists|group: Seq<char>, i: int|
        f.groups.dom().contains(group) && 0 <= i < f.groups[group].len() && names_host(
            f,
            #[trigger] f.groups[group][i],
            host,
        )
}

/// Every host that the inventory names.
pub open spec fn all_hosts(f: Fleet) -> Set<Seq<char>> {
    Set::new(|host: Seq<char>| is_host(f, host))
}

/// The hosts that a pattern selects, in their order, or why it selects none.
pub open spec fn selected(f: Fleet, pattern: Seq<char>) -> Result<Seq<Seq<char>>, Seq<char>> {
    match glob_complaint(pattern) {
        Some(e) => Err(pattern + " is not a shell pattern: "@ + e),
        None => {
            let matched = all_hosts(f).filter(|host: Seq<char>| glob_matches(pattern, host));
            if !matched.is_empty() {
                Ok(text::listing(matched))
            } else if f.groups.dom().is_empty() {
                Err(
                    "There is no inventory for "@ + pattern
                        + " to match against; write the groups in "@ + f.path
                        + ", or name the hosts"@,
                )
            } else {
                Err(pattern + " matches no host of "@ + f.path)
            }
        },
    }
}

/// `hosts` and after them those of `more` that are not among them yet.
pub open spec fn gathered(hosts: Seq<Seq<char>>, more: Seq<Seq<char>>) -> Seq<Seq<char>>
    decreases more.len(),
{
    if more.len() == 0 {
        hosts
    } else {
        let before = gathered(hosts, more.drop_last());
        if before.contains(more.last()) {
            before
        } else {
            before.push(more.last())
        }
    }
}

/// How many brackets a term opens.
pub open spec fn brackets(s: Seq<char>) -> nat
    decreases s.len(),
{
    if s.len() == 0 {
        0
    } else {
        brackets(s.drop_last()) + if s.last() == '[' {
            1nat
        } else {
            0nat
        }
    }
}

/// The most brackets that one of several terms opens.
pub open spec fn most_brackets(terms: Seq<Seq<char>>) -> nat
    decreases terms.len(),
{
    if terms.len() == 0 {
        0
    } else {
        let before = most_brackets(terms.drop_last());
        let last = brackets(terms.last());
        if before >= last {
            before
        } else {
            last
        }
    }
}

/// How many groups are not being followed yet.
pub open spec fn groups_left(f: Fleet, chain: Seq<Seq<char>>) -> nat {
    f.groups.dom().difference(chain.to_set()).len()
}

proof fn lemma_brackets_add(a: Seq<char>, b: Seq<char>)
    ensures
        brackets(a + b) == brackets(a) + brackets(b),
    decreases b.len(),
{
    if b.len() == 0 {
        assert(a + b =~= a);
    } else {
        assert((a + b).drop_last() =~= a + b.drop_last());
        lemma_brackets_add(a, b.drop_last());
    }
}

proof fn lemma_no_brackets(s: Seq<char>)
    requires
        forall|i: int| 0 <= i < s.len() ==> #[trigger] s[i] != '[',
    ensures
        brackets(s) == 0,
    decreases s.len(),
{
    if s.len() > 0 {
        lemma_no_brackets(s.drop_last());
    }
}

proof fn lemma_decimal_plain(n: nat)
    ensures
        forall|i: int| 0 <= i < text::decimal(n).len() ==> text::is_digit(#[trigger] text::decimal(n)[i]),
    decreases n,
{
    assert(0 <= n % 10 < 10);
    assert(text::is_digit(text::digit(n)));
    if n >= 10 {
        lemma_decimal_plain(n / 10);
        let less = text::decimal(n / 10);
        assert(text::decimal(n) == less.push(text::digit(n)));
        assert forall|i: int| 0 <= i < text::decimal(n).len() implies text::is_digit(
            #[trigger] text::decimal(n)[i],
        ) by {
            if i < less.len() {
                assert(text::decimal(n)[i] == less[i]);
            }
        }
    }
}

proof fn lemma_steps_plain(c: Count, i: int)
    requires
        0 <= i < steps(c).len(),
        c matches Count::Letters { low, high } ==> is_lower(low as char) && is_lower(high as char)
            || is_upper(low as char) && is_upper(high as char),
    ensures
        brackets(steps(c)[i]) == 0,
{
    let s = steps(c)[i];
    match c {
        Count::Numbers { low, high, width } => {
            lemma_decimal_plain((low + i) as nat);
            let d = text::decimal((low + i) as nat);
            assert forall|j: int| 0 <= j < s.len() implies #[trigger] s[j] != '[' by {
                if d.len() < width && j >= width - d.len() {
                    assert(s[j] == d[j - (width - d.len())]);
                }
            }
        },
        Count::Letters { low, high } => {},
    }
    lemma_no_brackets(s);
}

proof fn lemma_counted_letters(low: Seq<char>, high: Seq<char>)
    ensures
        counted(low, high) matches Some(Count::Letters { low, high }) ==> is_lower(low as char)
            && is_lower(high as char) || is_upper(low as char) && is_upper(high as char),
{
}

proof fn lemma_span(term: Seq<char>, from: nat)
    ensures
        span_from(term, from) matches Some(r) ==> {
            &&& brackets(r.prefix) + brackets(r.suffix) < brackets(term)
            &&& r.count matches Count::Letters { low, high } ==> is_lower(low as char) && is_lower(
                high as char,
            ) || is_upper(low as char) && is_upper(high as char)
        },
    decreases term.len() - from,
{
    lemma_next_of(term, '[', from as int);
    if let Some(open) = next_of(term, '[', from as int) {
        lemma_next_of(term, ']', open);
        if let Some(close) = next_of(term, ']', open) {
            let inner = term.subrange(open + 1, close);
            if counted_in(inner) is Some {
                lemma_next_of(inner, ':', 0);
                let colon = next_of(inner, ':', 0)->0;
                lemma_counted_letters(
                    inner.subrange(0, colon),
                    inner.subrange(colon + 1, inner.len() as int),
                );
                let a = term.subrange(0, open);
                let b = term.subrange(open, close + 1);
                let c = term.subrange(close + 1, term.len() as int);
                assert(term =~= a + b + c);
                lemma_brackets_add(a + b, c);
                lemma_brackets_add(a, b);
                let rest = term.subrange(open + 1, close + 1);
                assert(b =~= seq!['['] + rest);
                lemma_brackets_add(seq!['['], rest);
                assert(brackets(seq!['['].drop_last()) == 0);
                assert(seq!['['].last() == '[');
                assert(brackets(seq!['[']) == 1);
            } else {
                lemma_span(term, (open + 1) as nat);
            }
        }
    }
}

/// The names that a range stands for open fewer brackets than the range.
proof fn lemma_span_names(term: Seq<char>, i: int)
    requires
        span(term) is Some,
        0 <= i < span_names(span(term)->0).len(),
    ensures
        brackets(span_names(span(term)->0)[i]) < brackets(term),
{
    let r = span(term)->0;
    lemma_span(term, 0);
    lemma_steps_plain(r.count, i);
    lemma_brackets_add(r.prefix + steps(r.count)[i], r.suffix);
    lemma_brackets_add(r.prefix, steps(r.count)[i]);
}

proof fn lemma_most(terms: Seq<Seq<char>>, bound: nat)
    requires
        forall|i: int| 0 <= i < terms.len() ==> brackets(#[trigger] terms[i]) <= bound,
    ensures
        most_brackets(terms) <= bound,
    decreases terms.len(),
{
    if terms.len() > 0 {
        lemma_most(terms.drop_last(), bound);
    }
}

proof fn lemma_range_shrinks(term: Seq<char>)
    requires
        span(term) is Some,
    ensures
        brackets(term) > 0,
        most_brackets(span_names(span(term)->0)) < brackets(term),
{
    let r = span(term)->0;
    lemma_span(term, 0);
    assert forall|i: int| 0 <= i < span_names(r).len() implies brackets(#[trigger] span_names(r)[i])
        <= brackets(term) - 1 by {
        lemma_span_names(term, i);
    }
    lemma_most(span_names(r), (brackets(term) - 1) as nat);
}

proof fn lemma_group_followed(f: Fleet, term: Seq<char>, chain: Seq<Seq<char>>)
    requires
        f.groups.dom().finite(),
        f.groups.dom().contains(term),
        !chain.contains(term),
    ensures
        groups_left(f, chain.push(term)) < groups_left(f, chain),
{
    let left = f.groups.dom().difference(chain.to_set());
    assert(left.contains(term));
    assert(f.groups.dom().difference(chain.push(term).to_set()) =~= left.remove(term)) by {
        assert forall|t: Seq<char>| chain.push(term).contains(t) == (chain.contains(t) || t == term) by {
            if chain.contains(t) {
                let i = choose|i: int| 0 <= i < chain.len() && chain[i] == t;
                assert(chain.push(term)[i] == t);
            }
            assert(chain.push(term)[chain.len() as int] == term);
        }
    }
    assert(left.finite());
}

/// What one term names: a group and everything under it, the machines that a
/// range counts out, the hosts that a pattern selects, or the host itself.
/// `chain` is the groups that are being followed to get here.
pub open spec fn resolved(f: Fleet, term: Seq<char>, chain: Seq<Seq<char>>) -> Result<
    Seq<Seq<char>>,
    Seq<char>,
>
    decreases groups_left(f, chain), brackets(term), 0nat,
    when f.groups.dom().finite()
    via resolved_decreases
{
    if f.groups.dom().contains(term) {
        if chain.contains(term) {
            Err(text::join(chain.push(term), " -> "@) + " is a circle of groups"@)
        } else {
            resolved_all(f, f.groups[term], chain.push(term))
        }
    } else {
        match span(term) {
            Some(r) => if !ascends(r.count) {
                Err(term + " counts backwards, and names no machine"@)
            } else {
                resolved_all(f, span_names(r), chain)
            },
            None => if !is_wild(term) {
                Ok(seq![term])
            } else {
                selected(f, term)
            },
        }
    }
}

/// What several terms name, each host once.
pub open spec fn resolved_all(f: Fleet, terms: Seq<Seq<char>>, chain: Seq<Seq<char>>) -> Result<
    Seq<Seq<char>>,
    Seq<char>,
>
    decreases groups_left(f, chain), most_brackets(terms), terms.len(),
    when f.groups.dom().finite()
    via resolved_all_decreases
{
    if terms.len() == 0 {
        Ok(Seq::empty())
    } else {
        match resolved_all(f, terms.drop_last(), chain) {
            Err(e) => Err(e),
            Ok(hosts) => match resolved(f, terms.last(), chain) {
                Err(e) => Err(e),
                Ok(more) => Ok(gathered(hosts, more)),
            },
        }
    }
}

#[via_fn]
proof fn resolved_decreases(f: Fleet, term: Seq<char>, chain: Seq<Seq<char>>) {
    if f.groups.dom().contains(term) {
        if !chain.contains(term) {
            lemma_group_followed(f, term, chain);
        }
    } else if span(term) is Some {
        lemma_range_shrinks(term);
    }
}

#[via_fn]
proof fn resolved_all_decreases(f: Fleet, terms: Seq<Seq<char>>, chain: Seq<Seq<char>>) {
}

/// Whether the group at `i` is the one that counts for its name.
pub open spec fn group_decides(s: Seq<(String, Vec<String>)>, i: int) -> bool {
    &&& 0 <= i < s.len()
    &&& forall|j: int| i < j < s.len() ==> (#[trigger] s[j]).0@ != s[i].0@
}

proof fn lemma_group_decides(s: Seq<(String, Vec<String>)>, i: int)
    requires
        group_decides(s, i),
    ensures
        document::lists_of(s).dom().contains(s[i].0@),
        document::lists_of(s)[s[i].0@] == text::texts(s[i].1@),
    decreases s.len(),
{
    if i < s.len() - 1 {
        assert(s[s.len() - 1].0@ != s[i].0@);
        assert forall|j: int| i < j < s.drop_last().len() implies (#[trigger] s.drop_last()[j]).0@
            != s.drop_last()[i].0@ by {
            assert(s.drop_last()[j] == s[j]);
        }
        lemma_group_decides(s.drop_last(), i);
    }
}

proof fn lemma_groups_from(s: Seq<(String, Vec<String>)>, name: Seq<char>)
    ensures
        document::lists_of(s).dom().contains(name) ==> exists|i: int|
            #[trigger] group_decides(s, i) && s[i].0@ == name,
        (forall|i: int| 0 <= i < s.len() ==> (#[trigger] s[i]).0@ != name) ==> !document::lists_of(s).dom().contains(name),
        document::lists_of(s).dom().finite(),
        s.len() == 0 <==> document::lists_of(s).dom().is_empty(),
    decreases s.len(),
{
    if s.len() > 0 {
        lemma_groups_from(s.drop_last(), name);
        assert(document::lists_of(s).dom().contains(s.last().0@));
        if document::lists_of(s).dom().contains(name) {
            if s.last().0@ == name {
                assert(group_decides(s, s.len() - 1));
            } else {
                let i = choose|i: int|
                    #[trigger] group_decides(s.drop_last(), i) && s.drop_last()[i].0@ == name;
                assert(s.drop_last()[i] == s[i]);
                assert forall|j: int| i < j < s.len() implies (#[trigger] s[j]).0@ != s[i].0@ by {
                    if j < s.len() - 1 {
                        assert(s.drop_last()[j] == s[j]);
                    }
                }
                assert(group_decides(s, i));
            }
        }
        if forall|i: int| 0 <= i < s.len() ==> (#[trigger] s[i]).0@ != name {
            assert(s[s.len() - 1].0@ != name);
            assert forall|i: int| 0 <= i < s.drop_last().len() implies (#[trigger] s.drop_last()[i]).0@
                != name by {
                assert(s.drop_last()[i] == s[i]);
            }
        }
    }
}

/// Whether one of the first `n` members names a host.
spec fn named_by(f: Fleet, members: Seq<Seq<char>>, n: int, host: Seq<char>) -> bool {
    exists|j: int| 0 <= j < n && names_host(f, #[trigger] members[j], host)
}

proof fn lemma_named_next(f: Fleet, members: Seq<Seq<char>>, n: int, host: Seq<char>)
    requires
        0 <= n < members.len(),
    ensures
        named_by(f, members, n + 1, host) == (named_by(f, members, n, host) || names_host(
            f,
            members[n],
            host,
        )),
{
    if named_by(f, members, n, host) {
        let j = choose|j: int| 0 <= j < n && names_host(f, #[trigger] members[j], host);
        assert(names_host(f, members[j], host));
    }
    if names_host(f, members[n], host) {
        assert(named_by(f, members, n + 1, host));
    }
}

/// Whether one of the first `n` groups names a host.
spec fn named_until(f: Fleet, s: Seq<(String, Vec<String>)>, n: int, host: Seq<char>) -> bool {
    exists|i: int|
        0 <= i < n && #[trigger] group_decides(s, i) && named_by(
            f,
            text::texts(s[i].1@),
            s[i].1@.len() as int,
            host,
        )
}

proof fn lemma_named(f: Fleet, s: Seq<(String, Vec<String>)>, host: Seq<char>)
    requires
        f.groups == document::lists_of(s),
    ensures
        named_until(f, s, s.len() as int, host) == is_host(f, host),
{
    if is_host(f, host) {
        let (group, j) = choose|group: Seq<char>, j: int|
            f.groups.dom().contains(group) && 0 <= j < f.groups[group].len() && names_host(
                f,
                #[trigger] f.groups[group][j],
                host,
            );
        lemma_groups_from(s, group);
        let i = choose|i: int| #[trigger] group_decides(s, i) && s[i].0@ == group;
        lemma_group_decides(s, i);
        assert(names_host(f, text::texts(s[i].1@)[j], host));
        assert(named_by(f, text::texts(s[i].1@), s[i].1@.len() as int, host));
    }
    if named_until(f, s, s.len() as int, host) {
        let i = choose|i: int|
            0 <= i < s.len() && #[trigger] group_decides(s, i) && named_by(
                f,
                text::texts(s[i].1@),
                s[i].1@.len() as int,
                host,
            );
        let j = choose|j: int|
            0 <= j < s[i].1@.len() && names_host(f, #[trigger] text::texts(s[i].1@)[j], host);
        lemma_group_decides(s, i);
        assert(names_host(f, f.groups[s[i].0@][j], host));
    }
}

/// The hosts that a call gives, or its message.
pub open spec fn given(r: Result<Vec<String>, String>) -> Result<Seq<Seq<char>>, Seq<char>> {
    match r {
        Ok(hosts) => Ok(text::texts(hosts@)),
        Err(e) => Err(e@),
    }
}

/// Add the hosts of `more` that are not there yet.
fn gather(hosts: &mut Vec<String>, more: &Vec<String>)
    ensures
        text::texts(final(hosts)@) == gathered(text::texts(old(hosts)@), text::texts(more@)),
{
    let ghost was = text::texts(hosts@);
    let ghost all = text::texts(more@);
    let mut i: usize = 0;
    assert(all.take(0) =~= Seq::empty());
    while i < more.len()
        invariant
            i <= more@.len(),
            all == text::texts(more@),
            text::texts(hosts@) == gathered(was, all.take(i as int)),
        decreases more@.len() - i,
    {
        assert(all.take(i + 1).drop_last() =~= all.take(i as int));
        assert(all[i as int] == more@[i as int]@);
        if !text::listed(hosts, more[i].as_str()) {
            let ghost before = hosts@;
            hosts.push(more[i].clone());
            assert(text::texts(hosts@) =~= text::texts(before).push(all[i as int]));
        }
        i += 1;
    }
    assert(all.take(i as int) =~= all);
}

proof fn lemma_resolved_stop(f: Fleet, terms: Seq<Seq<char>>, chain: Seq<Seq<char>>, i: int)
    requires
        f.groups.dom().finite(),
        0 <= i <= terms.len(),
        resolved_all(f, terms.take(i), chain) is Err,
    ensures
        resolved_all(f, terms, chain) == resolved_all(f, terms.take(i), chain),
    decreases terms.len() - i,
{
    if i == terms.len() {
        assert(terms.take(i) =~= terms);
    } else {
        assert(terms.take(i + 1).drop_last() =~= terms.take(i));
        lemma_resolved_stop(f, terms, chain, i + 1);
    }
}

proof fn lemma_most_of(terms: Seq<Seq<char>>, i: int)
    requires
        0 <= i < terms.len(),
    ensures
        brackets(terms[i]) <= most_brackets(terms),
    decreases terms.len(),
{
    if i < terms.len() - 1 {
        lemma_most_of(terms.drop_last(), i);
        assert(terms.drop_last()[i] == terms[i]);
    }
}

impl Inventory {
    /// An inventory that names no group.
    pub fn empty(path: String) -> (r: Self)
        ensures
            r@ == (Fleet { groups: Map::empty(), path: path@ }),
    {
        Inventory { groups: Vec::new(), path }
    }

    /// The members of a group, when there is one of that name.
    pub fn group(&self, name: &str) -> (r: Option<&Vec<String>>)
        ensures
            self@.groups.dom().finite(),
            match r {
                Some(members) => self@.groups.dom().contains(name@) && self@.groups[name@]
                    == text::texts(members@),
                None => !self@.groups.dom().contains(name@),
            },
    {
        let mut i: usize = self.groups.len();
        proof {
            lemma_groups_from(self.groups@, name@);
        }
        while i > 0
            invariant
                i <= self.groups@.len(),
                document::lists_of(self.groups@).dom().finite(),
                forall|j: int|
                    i <= j < self.groups@.len() ==> (#[trigger] self.groups@[j]).0@ != name@,
            decreases i,
        {
            i -= 1;
            if text::equal(self.groups[i].0.as_str(), name) {
                proof {
                    lemma_group_decides(self.groups@, i as int);
                }
                return Some(&self.groups[i].1);
            }
        }
        proof {
            lemma_groups_from(self.groups@, name@);
        }
        None
    }

    /// Whether the group at `i` is the one that counts for its name.
    fn decides(&self, i: usize) -> (r: bool)
        requires
            i < self.groups@.len(),
        ensures
            r == group_decides(self.groups@, i as int),
    {
        let size: usize = self.groups.len();
        let mut j: usize = i + 1;
        while j < size
            invariant
                size == self.groups@.len(),
                i < j <= self.groups@.len(),
                forall|m: int|
                    i < m < j ==> (#[trigger] self.groups@[m]).0@ != self.groups@[i as int].0@,
            decreases self.groups@.len() - j,
        {
            if text::equal(self.groups[j].0.as_str(), self.groups[i].0.as_str()) {
                return false;
            }
            j += 1;
        }
        true
    }

    /// Add the hosts that a member of a group names.
    fn enlist_member(&self, hosts: &mut Vec<String>, member: &str)
        requires
            text::ascending(text::texts(old(hosts)@)),
        ensures
            text::ascending(text::texts(final(hosts)@)),
            forall|h: Seq<char>| #[trigger]
                text::texts(final(hosts)@).to_set().contains(h) == (text::texts(
                    old(hosts)@,
                ).to_set().contains(h) || names_host(self@, member@, h)),
        decreases brackets(member@),
    {
        let ghost f = self@;
        if self.group(member).is_some() {
            return ;
        }
        let ghost was = text::texts(hosts@).to_set();
        match range(member) {
            Some(r) => {
                let all = r.names();
                let ghost names = text::texts(all@);
                let mut i: usize = 0;
                while i < all.len()
                    invariant
                        f == self@,
                        i <= all@.len(),
                        names == text::texts(all@),
                        span(member@) is Some,
                        names == span_names(span(member@)->0),
                        text::ascending(text::texts(hosts@)),
                        forall|h: Seq<char>| #[trigger]
                            text::texts(hosts@).to_set().contains(h) == (was.contains(h)
                                || named_by(f, names, i as int, h)),
                    decreases all@.len() - i,
                {
                    let ghost now = text::texts(hosts@).to_set();
                    assert(names[i as int] == all@[i as int]@);
                    proof {
                        lemma_span_names(member@, i as int);
                    }
                    self.enlist_member(hosts, all[i].as_str());
                    proof {
                        assert forall|h: Seq<char>| #[trigger]
                            text::texts(hosts@).to_set().contains(h) == (was.contains(h)
                                || named_by(f, names, i + 1, h)) by {
                            lemma_named_next(f, names, i as int, h);
                            assert(now.contains(h) == (was.contains(h) || named_by(
                                f,
                                names,
                                i as int,
                                h,
                            )));
                        }
                    }
                    i += 1;
                }
            },
            None => {
                if !wild(member) {
                    text::enlist(hosts, member);
                }
            },
        }
    }

    /// Every host that the inventory names, in their order.
    pub fn hosts(&self) -> (r: Vec<String>)
        ensures
            text::ascending(text::texts(r@)),
            text::texts(r@).to_set() == all_hosts(self@),
            text::texts(r@) == text::listing(all_hosts(self@)),
    {
        let ghost f = self@;
        let ghost s = self.groups@;
        let mut r: Vec<String> = Vec::new();
        let mut i: usize = 0;
        while i < self.groups.len()
            invariant
                i <= self.groups@.len(),
                f == self@,
                s == self.groups@,
                text::ascending(text::texts(r@)),
                forall|h: Seq<char>| #[trigger]
                    text::texts(r@).to_set().contains(h) == named_until(f, s, i as int, h),
            decreases self.groups@.len() - i,
        {
            let ghost before = text::texts(r@).to_set();
            let ghost members = text::texts(s[i as int].1@);
            let counts = self.decides(i);
            if counts {
                let mut j: usize = 0;
                while j < self.groups[i].1.len()
                    invariant
                        i < self.groups@.len(),
                        s == self.groups@,
                        f == self@,
                        members == text::texts(s[i as int].1@),
                        j <= s[i as int].1@.len(),
                        text::ascending(text::texts(r@)),
                        forall|h: Seq<char>| #[trigger]
                            text::texts(r@).to_set().contains(h) == (before.contains(h)
                                || named_by(f, members, j as int, h)),
                    decreases s[i as int].1@.len() - j,
                {
                    let ghost now = text::texts(r@).to_set();
                    assert(members[j as int] == s[i as int].1@[j as int]@);
                    self.enlist_member(&mut r, self.groups[i].1[j].as_str());
                    assert forall|h: Seq<char>| #[trigger]
                        text::texts(r@).to_set().contains(h) == (before.contains(h) || named_by(
                            f,
                            members,
                            j + 1,
                            h,
                        )) by {
                        assert(now.contains(h) == (before.contains(h) || named_by(
                            f,
                            members,
                            j as int,
                            h,
                        )));
                        lemma_named_next(f, members, j as int, h);
                    }
                    j += 1;
                }
            }
            assert forall|h: Seq<char>| #[trigger]
                text::texts(r@).to_set().contains(h) == named_until(f, s, i + 1, h) by {
                assert(before.contains(h) == named_until(f, s, i as int, h));
                if counts && named_by(f, members, s[i as int].1@.len() as int, h) {
                    assert(group_decides(s, i as int));
                    assert(named_until(f, s, i + 1, h));
                }
                if named_until(f, s, i as int, h) {
                    let q = choose|q: int|
                        0 <= q < i && #[trigger] group_decides(s, q) && named_by(
                            f,
                            text::texts(s[q].1@),
                            s[q].1@.len() as int,
                            h,
                        );
                    assert(group_decides(s, q));
                    assert(named_until(f, s, i + 1, h));
                }
                if named_until(f, s, i + 1, h) && !named_until(f, s, i as int, h) {
                    let q = choose|q: int|
                        0 <= q < i + 1 && #[trigger] group_decides(s, q) && named_by(
                            f,
                            text::texts(s[q].1@),
                            s[q].1@.len() as int,
                            h,
                        );
                    assert(q == i);
                }
            }
            i += 1;
        }
        proof {
            assert forall|h: Seq<char>| #[trigger]
                text::texts(r@).to_set().contains(h) == all_hosts(f).contains(h) by {
                lemma_named(f, s, h);
            }
            assert(text::texts(r@).to_set() =~= all_hosts(f));
            text::lemma_listing(text::texts(r@));
        }
        r
    }

    /// The hosts that a pattern selects.
    fn select(&self, pattern: &str) -> (r: Result<Vec<String>, String>)
        ensures
            given(r) == selected(self@, pattern@),
    {
        let made = match shell_pattern(pattern) {
            Ok(made) => made,
            Err(e) => {
                let mut message = pattern.to_owned();
                message.append(" is not a shell pattern: ");
                message.append(e.as_str());
                return Err(message);
            },
        };
        let all = self.hosts();
        let ghost names = text::texts(all@);
        let mut r: Vec<String> = Vec::new();
        let mut i: usize = 0;
        while i < all.len()
            invariant
                i <= all@.len(),
                names == text::texts(all@),
                text::ascending(names),
                glob_source(made) == pattern@,
                text::ascending(text::texts(r@)),
                forall|h: Seq<char>| #[trigger]
                    text::texts(r@).to_set().contains(h) == (names.take(i as int).to_set().contains(h)
                        && glob_matches(pattern@, h)),
            decreases all@.len() - i,
        {
            assert(names[i as int] == all@[i as int]@);
            proof {
                text::lemma_take_set(names, i as int);
            }
            let ghost now = text::texts(r@).to_set();
            if pattern_matches(&made, all[i].as_str()) {
                text::enlist(&mut r, all[i].as_str());
            }
            assert forall|h: Seq<char>| #[trigger]
                text::texts(r@).to_set().contains(h) == (names.take(i + 1).to_set().contains(h)
                    && glob_matches(pattern@, h)) by {
                assert(now.contains(h) == (names.take(i as int).to_set().contains(h)
                    && glob_matches(pattern@, h)));
            }
            i += 1;
        }
        let ghost matched = all_hosts(self@).filter(
            |host: Seq<char>| glob_matches(pattern@, host),
        );
        proof {
            assert(names.take(i as int) =~= names);
            assert forall|h: Seq<char>| #[trigger] text::texts(r@).to_set().contains(h) == matched.contains(h) by {}
            assert(text::texts(r@).to_set() =~= matched);
            text::lemma_listing(text::texts(r@));
            lemma_groups_from(self.groups@, Seq::empty());
        }
        if r.len() > 0 {
            assert(text::texts(r@).contains(r@[0]@)) by {
                assert(text::texts(r@)[0] == r@[0]@);
            }
            assert(matched.contains(r@[0]@));
            return Ok(r);
        }
        assert(matched =~= Set::empty()) by {
            assert forall|h: Seq<char>| !matched.contains(h) by {
                assert(text::texts(r@).to_set().contains(h) == matched.contains(h));
            }
        }
        let mut message: String;
        if self.groups.len() == 0 {
            message = "There is no inventory for ".to_owned();
            message.append(pattern);
            message.append(" to match against; write the groups in ");
            message.append(self.path.as_str());
            message.append(", or name the hosts");
        } else {
            message = pattern.to_owned();
            message.append(" matches no host of ");
            message.append(self.path.as_str());
        }
        Err(message)
    }

    /// What one term names.
    pub fn resolve(&self, term: &str, chain: &Vec<String>) -> (r: Result<Vec<String>, String>)
        ensures
            given(r) == resolved(self@, term@, text::texts(chain@)),
        decreases groups_left(self@, text::texts(chain@)), brackets(term@), 0nat,
    {
        let ghost followed = text::texts(chain@);
        match self.group(term) {
            Some(members) => {
                let mut longer = chain.clone();
                longer.push(term.to_owned());
                assert(text::texts(longer@) =~= followed.push(term@));
                if text::listed(chain, term) {
                    let mut message = text::joined(&longer, " -> ");
                    message.append(" is a circle of groups");
                    return Err(message);
                }
                proof {
                    lemma_group_followed(self@, term@, followed);
                }
                self.resolve_all(members, &longer)
            },
            None => match range(term) {
                Some(r) => {
                    if !r.count.ascends() {
                        let mut message = term.to_owned();
                        message.append(" counts backwards, and names no machine");
                        return Err(message);
                    }
                    let names = r.names();
                    proof {
                        lemma_range_shrinks(term@);
                    }
                    self.resolve_all(&names, chain)
                },
                None => {
                    if !wild(term) {
                        let mut hosts: Vec<String> = Vec::new();
                        hosts.push(term.to_owned());
                        assert(text::texts(hosts@) =~= seq![term@]);
                        Ok(hosts)
                    } else {
                        self.select(term)
                    }
                },
            },
        }
    }

    /// What several terms name, each host once.
    fn resolve_all(&self, terms: &Vec<String>, chain: &Vec<String>) -> (r: Result<Vec<String>, String>)
        requires
            self@.groups.dom().finite(),
        ensures
            given(r) == resolved_all(self@, text::texts(terms@), text::texts(chain@)),
        decreases
                groups_left(self@, text::texts(chain@)),
                most_brackets(text::texts(terms@)),
                terms@.len(),
    {
        let ghost all = text::texts(terms@);
        let ghost followed = text::texts(chain@);
        let mut hosts: Vec<String> = Vec::new();
        let mut i: usize = 0;
        assert(all.take(0) =~= Seq::empty());
        assert(text::texts(hosts@) =~= Seq::empty());
        while i < terms.len()
            invariant
                i <= terms@.len(),
                self@.groups.dom().finite(),
                all == text::texts(terms@),
                followed == text::texts(chain@),
                resolved_all(self@, all.take(i as int), followed) == Ok::<
                    Seq<Seq<char>>,
                    Seq<char>,
                >(text::texts(hosts@)),
            decreases terms@.len() - i,
        {
            assert(all.take(i + 1).drop_last() =~= all.take(i as int));
            assert(all[i as int] == terms@[i as int]@);
            proof {
                lemma_most_of(all, i as int);
            }
            match self.resolve(terms[i].as_str(), chain) {
                Ok(more) => {
                    gather(&mut hosts, &more);
                },
                Err(e) => {
                    proof {
                        lemma_resolved_stop(self@, all, followed, i + 1);
                    }
                    return Err(e);
                },
            }
            i += 1;
        }
        assert(all.take(i as int) =~= all);
        Ok(hosts)
    }
}

/// The hosts that the first `n` members name.
spec fn hosts_by(f: Fleet, members: Seq<Seq<char>>, n: int) -> Set<Seq<char>> {
    Set::new(|host: Seq<char>| named_by(f, members, n, host))
}

proof fn lemma_member_finite(f: Fleet, member: Seq<char>)
    ensures
        Set::new(|host: Seq<char>| names_host(f, member, host)).finite(),
    decreases brackets(member) + 1, 0nat,
{
    let named = Set::new(|host: Seq<char>| names_host(f, member, host));
    if f.groups.dom().contains(member) {
        assert(named =~= Set::empty());
    } else {
        match span(member) {
            None => {
                let alone = Set::empty().insert(member);
                assert(named.subset_of(alone));
                vstd::set_lib::lemma_len_subset(named, alone);
            },
            Some(r) => {
                let names = span_names(r);
                assert forall|i: int| 0 <= i < names.len() implies brackets(#[trigger] names[i])
                    < brackets(member) by {
                    lemma_span_names(member, i);
                }
                lemma_members_finite(f, names, names.len() as int, brackets(member));
                assert(named =~= hosts_by(f, names, names.len() as int)) by {
                    assert forall|host: Seq<char>| named.contains(host) == hosts_by(
                        f,
                        names,
                        names.len() as int,
                    ).contains(host) by {}
                }
            },
        }
    }
}

proof fn lemma_members_finite(f: Fleet, members: Seq<Seq<char>>, n: int, bound: nat)
    requires
        0 <= n <= members.len(),
        forall|i: int| 0 <= i < members.len() ==> brackets(#[trigger] members[i]) < bound,
    ensures
        hosts_by(f, members, n).finite(),
    decreases bound, n + 1,
{
    let all = hosts_by(f, members, n);
    if n == 0 {
        assert(all =~= Set::empty());
    } else {
        let before = hosts_by(f, members, n - 1);
        let last = Set::new(|host: Seq<char>| names_host(f, members[n - 1], host));
        lemma_members_finite(f, members, n - 1, bound);
        lemma_member_finite(f, members[n - 1]);
        assert(all =~= before.union(last)) by {
            assert forall|host: Seq<char>| all.contains(host) == before.union(last).contains(host) by {
                lemma_named_next(f, members, n - 1, host);
            }
        }
    }
}

/// Whether one of some groups names a host.
spec fn names_within(f: Fleet, groups: Set<Seq<char>>, host: Seq<char>) -> bool {
    exists|group: Seq<char>| #[trigger]
        groups.contains(group) && named_by(
            f,
            f.groups[group],
            f.groups[group].len() as int,
            host,
        )
}

proof fn lemma_groups_finite(f: Fleet, groups: Set<Seq<char>>)
    requires
        groups.finite(),
    ensures
        Set::new(|host: Seq<char>| names_within(f, groups, host)).finite(),
    decreases groups.len(),
{
    let all = Set::new(|host: Seq<char>| names_within(f, groups, host));
    if groups.len() == 0 {
        assert(all =~= Set::empty());
    } else {
        let group = groups.choose();
        let rest = groups.remove(group);
        let members = f.groups[group];
        let n = members.len() as int;
        lemma_groups_finite(f, rest);
        assert forall|i: int| 0 <= i < members.len() implies brackets(#[trigger] members[i])
            < most_brackets(members) + 1 by {
            lemma_most_of(members, i);
        }
        lemma_members_finite(f, members, n, most_brackets(members) + 1);
        let before = Set::new(|host: Seq<char>| names_within(f, rest, host));
        assert(all =~= before.union(hosts_by(f, members, n))) by {
            assert forall|host: Seq<char>| all.contains(host) == before.union(
                hosts_by(f, members, n),
            ).contains(host) by {
                if names_within(f, groups, host) {
                    let g = choose|g: Seq<char>| #[trigger]
                        groups.contains(g) && named_by(
                            f,
                            f.groups[g],
                            f.groups[g].len() as int,
                            host,
                        );
                    if g != group {
                        assert(rest.contains(g));
                    }
                }
                if names_within(f, rest, host) {
                    let g = choose|g: Seq<char>| #[trigger]
                        rest.contains(g) && named_by(
                            f,
                            f.groups[g],
                            f.groups[g].len() as int,
                            host,
                        );
                    assert(groups.contains(g));
                }
                if named_by(f, members, n, host) {
                    assert(groups.contains(group));
                }
            }
        }
    }
}

/// An inventory of finitely many groups names finitely many hosts.
proof fn lemma_hosts_finite(f: Fleet)
    requires
        f.groups.dom().finite(),
    ensures
        all_hosts(f).finite(),
{
    let within = Set::new(|host: Seq<char>| names_within(f, f.groups.dom(), host));
    lemma_groups_finite(f, f.groups.dom());
    assert(all_hosts(f) =~= within) by {
        assert forall|host: Seq<char>| all_hosts(f).contains(host) == within.contains(host) by {
            if is_host(f, host) {
                let (group, i) = choose|group: Seq<char>, i: int|
                    f.groups.dom().contains(group) && 0 <= i < f.groups[group].len() && names_host(
                        f,
                        #[trigger] f.groups[group][i],
                        host,
                    );
                assert(named_by(f, f.groups[group], f.groups[group].len() as int, host));
                assert(f.groups.dom().contains(group));
            }
            if names_within(f, f.groups.dom(), host) {
                let group = choose|group: Seq<char>| #[trigger]
                    f.groups.dom().contains(group) && named_by(
                        f,
                        f.groups[group],
                        f.groups[group].len() as int,
                        host,
                    );
                let i = choose|i: int|
                    0 <= i < f.groups[group].len() && names_host(
                        f,
                        #[trigger] f.groups[group][i],
                        host,
                    );
                assert(names_host(f, f.groups[group][i], host));
            }
        }
    }
}

/// A pattern selects among the hosts that the inventory names, every one that matches,
/// and never introduces one.
pub proof fn law_a_pattern_introduces_no_host(f: Fleet, pattern: Seq<char>, host: Seq<char>)
    requires
        f.groups.dom().finite(),
        selected(f, pattern) is Ok,
    ensures
        selected(f, pattern)->Ok_0.contains(host) <==> is_host(f, host) && glob_matches(
            pattern,
            host,
        ),
{
    let matched = all_hosts(f).filter(|host: Seq<char>| glob_matches(pattern, host));
    lemma_hosts_finite(f);
    vstd::set_lib::lemma_len_subset(matched, all_hosts(f));
    text::lemma_listing_stands(matched);
    let listed = text::listing(matched);
    assert(listed.to_set().contains(host) == listed.contains(host));
}

/// The terms of a command line, where a comma says what a second term says.
pub open spec fn terms_of(terms: Seq<Seq<char>>) -> Seq<Seq<char>>
    decreases terms.len(),
{
    if terms.len() == 0 {
        Seq::empty()
    } else {
        terms_of(terms.drop_last()) + text::split(terms.last(), ',')
    }
}

/// `hosts` without those that were taken away.
pub open spec fn without(hosts: Seq<Seq<char>>, taken: Seq<Seq<char>>) -> Seq<Seq<char>>
    decreases hosts.len(),
{
    if hosts.len() == 0 {
        Seq::empty()
    } else {
        let before = without(hosts.drop_last(), taken);
        if taken.contains(hosts.last()) {
            before
        } else {
            before.push(hosts.last())
        }
    }
}

/// The hosts that are selected once one more term is read.
pub open spec fn select_more(f: Fleet, hosts: Seq<Seq<char>>, term: Seq<char>) -> Result<
    Seq<Seq<char>>,
    Seq<char>,
> {
    let t = text::trim(term);
    if t.len() == 0 {
        Ok(hosts)
    } else if t[0] != '!' {
        match resolved(f, t, Seq::empty()) {
            Ok(more) => Ok(gathered(hosts, more)),
            Err(e) => Err(e),
        }
    } else if t.len() == 1 {
        Err("A ! takes away a host, a group or a pattern, and here it takes away nothing"@)
    } else {
        match resolved(f, t.drop_first(), Seq::empty()) {
            Ok(taken) => Ok(without(hosts, taken)),
            Err(e) => Err(e),
        }
    }
}

/// The hosts that terms select, read from left to right.
pub open spec fn expanded(f: Fleet, terms: Seq<Seq<char>>) -> Result<Seq<Seq<char>>, Seq<char>>
    decreases terms.len(),
{
    if terms.len() == 0 {
        Ok(Seq::empty())
    } else {
        match expanded(f, terms.drop_last()) {
            Err(e) => Err(e),
            Ok(hosts) => select_more(f, hosts, terms.last()),
        }
    }
}

proof fn lemma_expanded_stop(f: Fleet, terms: Seq<Seq<char>>, i: int)
    requires
        0 <= i <= terms.len(),
        expanded(f, terms.take(i)) is Err,
    ensures
        expanded(f, terms) == expanded(f, terms.take(i)),
    decreases terms.len() - i,
{
    if i == terms.len() {
        assert(terms.take(i) =~= terms);
    } else {
        assert(terms.take(i + 1).drop_last() =~= terms.take(i));
        lemma_expanded_stop(f, terms, i + 1);
    }
}

proof fn lemma_gathered_distinct(hosts: Seq<Seq<char>>, more: Seq<Seq<char>>)
    requires
        hosts.no_duplicates(),
    ensures
        gathered(hosts, more).no_duplicates(),
    decreases more.len(),
{
    if more.len() > 0 {
        lemma_gathered_distinct(hosts, more.drop_last());
        let before = gathered(hosts, more.drop_last());
        if !before.contains(more.last()) {
            assert forall|i: int, j: int|
                0 <= i < before.len() + 1 && 0 <= j < before.len() + 1 && i != j implies before.push(
                more.last(),
            )[i] != before.push(more.last())[j] by {
                if i < before.len() && j < before.len() {
                    assert(before[i] != before[j]);
                } else if i < before.len() {
                    assert(before[i] != more.last());
                } else {
                    assert(before[j] != more.last());
                }
            }
        }
    }
}

proof fn lemma_without(hosts: Seq<Seq<char>>, taken: Seq<Seq<char>>)
    ensures
        forall|h: Seq<char>| #[trigger]
            without(hosts, taken).contains(h) <==> hosts.contains(h) && !taken.contains(h),
        hosts.no_duplicates() ==> without(hosts, taken).no_duplicates(),
    decreases hosts.len(),
{
    if hosts.len() > 0 {
        let less = hosts.drop_last();
        let before = without(less, taken);
        let last = hosts.last();
        lemma_without(less, taken);
        assert forall|h: Seq<char>| hosts.contains(h) <==> (less.contains(h) || h == last) by {
            if hosts.contains(h) {
                let i = choose|i: int| 0 <= i < hosts.len() && hosts[i] == h;
                if i < less.len() {
                    assert(less[i] == h);
                }
            }
            if less.contains(h) {
                let i = choose|i: int| 0 <= i < less.len() && less[i] == h;
                assert(hosts[i] == h);
            }
            assert(hosts[hosts.len() - 1] == last);
        }
        if !taken.contains(last) {
            assert forall|h: Seq<char>| before.push(last).contains(h) <==> (before.contains(h) || h == last) by {
                if before.contains(h) {
                    let i = choose|i: int| 0 <= i < before.len() && before[i] == h;
                    assert(before.push(last)[i] == h);
                }
                assert(before.push(last)[before.len() as int] == last);
            }
        }
        assert forall|h: Seq<char>| #[trigger] without(hosts, taken).contains(h) <==> hosts.contains(h)
            && !taken.contains(h) by {
            assert(before.contains(h) <==> less.contains(h) && !taken.contains(h));
            assert(hosts.contains(h) <==> (less.contains(h) || h == last));
            if !taken.contains(last) {
                assert(without(hosts, taken) == before.push(last));
            } else {
                assert(without(hosts, taken) == before);
            }
        }
        if hosts.no_duplicates() {
            assert(less.no_duplicates()) by {
                assert forall|i: int, j: int|
                    0 <= i < less.len() && 0 <= j < less.len() && i != j implies less[i] != less[j] by {
                    assert(hosts[i] != hosts[j]);
                }
            }
            assert(!less.contains(last)) by {
                if less.contains(last) {
                    let i = choose|i: int| 0 <= i < less.len() && less[i] == last;
                    assert(hosts[i] != hosts[hosts.len() - 1]);
                }
            }
            if !taken.contains(last) {
                assert(!before.contains(last));
                assert forall|i: int, j: int|
                    0 <= i < before.len() + 1 && 0 <= j < before.len() + 1 && i != j implies before.push(
                    last,
                )[i] != before.push(last)[j] by {
                    if i < before.len() && j < before.len() {
                        assert(before[i] != before[j]);
                    } else if i < before.len() {
                        assert(before[i] != last);
                    } else {
                        assert(before[j] != last);
                    }
                }
            }
        }
    }
}

/// A host that two terms name is reached once.
pub proof fn law_each_host_once(f: Fleet, terms: Seq<Seq<char>>)
    ensures
        expanded(f, terms) matches Ok(hosts) ==> hosts.no_duplicates(),
    decreases terms.len(),
{
    if terms.len() > 0 && expanded(f, terms) is Ok {
        law_each_host_once(f, terms.drop_last());
        let hosts = expanded(f, terms.drop_last())->Ok_0;
        let t = text::trim(terms.last());
        if t.len() > 0 {
            if t[0] != '!' {
                lemma_gathered_distinct(hosts, resolved(f, t, Seq::empty())->Ok_0);
            } else {
                lemma_without(hosts, resolved(f, t.drop_first(), Seq::empty())->Ok_0);
            }
        }
    }
}

/// An exclusion takes away what was selected before it, and nothing else.
pub proof fn law_exclusion(f: Fleet, terms: Seq<Seq<char>>, term: Seq<char>, host: Seq<char>)
    requires
        term.len() > 1,
        term[0] == '!',
        text::trim(term) == term,
        expanded(f, terms.push(term)) is Ok,
    ensures
        expanded(f, terms) is Ok,
        resolved(f, term.drop_first(), Seq::empty()) is Ok,
        expanded(f, terms.push(term))->Ok_0.contains(host) <==> expanded(f, terms)->Ok_0.contains(
            host,
        ) && !resolved(f, term.drop_first(), Seq::empty())->Ok_0.contains(host),
{
    assert(terms.push(term).drop_last() =~= terms);
    assert(terms.push(term).last() == term);
    let hosts = expanded(f, terms)->Ok_0;
    lemma_without(hosts, resolved(f, term.drop_first(), Seq::empty())->Ok_0);
}

/// A comma says what a second term says.
pub proof fn law_comma_is_a_second_term(a: Seq<char>, b: Seq<char>)
    ensures
        terms_of(seq![a + seq![','] + b]) == terms_of(seq![a, b]),
{
    let joined = a + seq![','] + b;
    text::lemma_split_joins(a, b, ',');
    assert(seq![joined].drop_last() =~= Seq::empty());
    assert(terms_of(seq![joined].drop_last()) =~= Seq::empty());
    assert(seq![a, b].drop_last() =~= seq![a]);
    assert(seq![a].drop_last() =~= Seq::empty());
    assert(terms_of(seq![a].drop_last()) =~= Seq::empty());
    assert(terms_of(seq![a]) =~= text::split(a, ','));
    assert(terms_of(seq![a, b]) =~= text::split(a, ',') + text::split(b, ','));
    assert(terms_of(seq![joined]) =~= text::split(joined, ','));
}

impl Inventory {
    /// The hosts that are selected once one more term is read.
    fn expand_term(&self, hosts: Vec<String>, term: &str) -> (r: Result<Vec<String>, String>)
        ensures
            given(r) == select_more(self@, text::texts(hosts@), term@),
    {
        let none: Vec<String> = Vec::new();
        assert(text::texts(none@) =~= Seq::empty());
        let t = text::trimmed(term);
        let cs = text::chars_of(t.as_str());
        if cs.len() == 0 {
            return Ok(hosts);
        }
        if cs[0] != '!' {
            return match self.resolve(t.as_str(), &none) {
                Ok(more) => {
                    let mut hosts = hosts;
                    gather(&mut hosts, &more);
                    Ok(hosts)
                },
                Err(e) => Err(e),
            };
        }
        if cs.len() == 1 {
            return Err(
                "A ! takes away a host, a group or a pattern, and here it takes away nothing".to_owned(),
            );
        }
        let excluded = text::string_of(&cs, 1, cs.len());
        assert(excluded@ =~= cs@.drop_first());
        match self.resolve(excluded.as_str(), &none) {
            Err(e) => Err(e),
            Ok(taken) => {
                let ghost all = text::texts(hosts@);
                let mut left: Vec<String> = Vec::new();
                let mut i: usize = 0;
                assert(text::texts(left@) =~= without(all.take(0), text::texts(taken@)));
                while i < hosts.len()
                    invariant
                        i <= hosts@.len(),
                        all == text::texts(hosts@),
                        text::texts(left@) == without(all.take(i as int), text::texts(taken@)),
                    decreases hosts@.len() - i,
                {
                    assert(all.take(i + 1).drop_last() =~= all.take(i as int));
                    assert(all[i as int] == hosts@[i as int]@);
                    if !text::listed(&taken, hosts[i].as_str()) {
                        let ghost before = left@;
                        left.push(hosts[i].clone());
                        assert(text::texts(left@) =~= text::texts(before).push(all[i as int]));
                    }
                    i += 1;
                }
                assert(all.take(i as int) =~= all);
                Ok(left)
            },
        }
    }

    /// The hosts that the command line asks for.  The terms are read from left
    /// to right, so an exclusion takes away what was already selected and never
    /// what comes after it, and a host that two terms name is reached once.
    pub fn expand(&self, terms: &Vec<String>) -> (r: Result<Vec<String>, String>)
        ensures
            given(r) == expanded(self@, terms_of(text::texts(terms@))),
    {
        let ghost given_terms = text::texts(terms@);
        let mut all: Vec<String> = Vec::new();
        let mut i: usize = 0;
        assert(text::texts(all@) =~= terms_of(given_terms.take(0)));
        while i < terms.len()
            invariant
                i <= terms@.len(),
                given_terms == text::texts(terms@),
                text::texts(all@) == terms_of(given_terms.take(i as int)),
            decreases terms@.len() - i,
        {
            assert(given_terms.take(i + 1).drop_last() =~= given_terms.take(i as int));
            assert(given_terms[i as int] == terms@[i as int]@);
            let mut pieces = text::pieces(terms[i].as_str(), ',');
            let ghost was = all@;
            let ghost more = pieces@;
            all.append(&mut pieces);
            assert(text::texts(all@) =~= text::texts(was) + text::texts(more));
            i += 1;
        }
        assert(given_terms.take(i as int) =~= given_terms);
        let ghost read = text::texts(all@);
        let mut hosts: Vec<String> = Vec::new();
        let mut n: usize = 0;
        assert(read.take(0) =~= Seq::empty());
        assert(text::texts(hosts@) =~= Seq::empty());
        while n < all.len()
            invariant
                n <= all@.len(),
                read == text::texts(all@),
                read == terms_of(text::texts(terms@)),
                expanded(self@, read.take(n as int)) == Ok::<Seq<Seq<char>>, Seq<char>>(
                    text::texts(hosts@),
                ),
            decreases all@.len() - n,
        {
            assert(read.take(n + 1).drop_last() =~= read.take(n as int));
            assert(read[n as int] == all@[n as int]@);
            match self.expand_term(hosts, all[n].as_str()) {
                Ok(more) => {
                    hosts = more;
                },
                Err(e) => {
                    proof {
                        lemma_expanded_stop(self@, read, n + 1);
                    }
                    return Err(e);
                },
            }
            n += 1;
        }
        assert(read.take(n as int) =~= read);
        Ok(hosts)
    }
}

/// The inventory that the text of a file describes.
pub open spec fn described(path: Seq<char>, body: var::Read) -> Result<Fleet, Seq<char>> {
    let unread = "Cannot read the inventory "@ + path + ": "@;
    match body {
        Err(e) => Err(unread + e@),
        Ok(body) => match var::document_in(body@) {
            Err(e) => Err(unread + e),
            Ok(j) => if document::is_lists(j) {
                Ok(Fleet { groups: document::lists_in(j), path })
            } else {
                Err(
                    "The inventory "@ + path + " is a list of hosts under every group name: "@
                        + document::lists_complaint(j),
                )
            },
        },
    }
}

impl Inventory {
    /// The inventory that the text of a file describes, in any of the formats
    /// that a document is written in.
    pub fn from_file(path: &str, body: var::Read) -> (r: Result<Self, String>)
        ensures
            described(path@, body) == (match r {
                Ok(inventory) => Ok(inventory@),
                Err(e) => Err(e@),
            }),
    {
        let mut unread = "Cannot read the inventory ".to_owned();
        unread.append(path);
        unread.append(": ");
        match body {
            Err(e) => {
                unread.append(e.as_str());
                Err(unread)
            },
            Ok(body) => match var::read_document(body.as_str()) {
                Err(e) => {
                    unread.append(e.as_str());
                    Err(unread)
                },
                Ok(d) => match document::read_lists(&d) {
                    Ok(groups) => Ok(Inventory { groups, path: path.to_owned() }),
                    Err(e) => {
                        let mut message = "The inventory ".to_owned();
                        message.append(path);
                        message.append(" is a list of hosts under every group name: ");
                        message.append(e.as_str());
                        Err(message)
                    },
                },
            },
        }
    }
}

/// Digits are their number written with zeros before it up to their length.
proof fn lemma_padded_is_written_back(s: Seq<char>)
    requires
        text::all_digits(s),
    ensures
        padded(text::number(s), s.len()) == s,
    decreases s.len(),
{
    let less = s.drop_last();
    let c = s.last();
    let n = text::number(s);
    assert(text::is_digit(s[s.len() - 1]));
    if less.len() == 0 {
        assert(text::number(less) == 0);
        assert(text::decimal(n) =~= s);
    } else {
        assert forall|i: int| 0 <= i < less.len() implies text::is_digit(#[trigger] less[i]) by {
            assert(less[i] == s[i]);
        }
        lemma_padded_is_written_back(less);
        let m = text::number(less);
        assert(n == m * 10 + (c as u32 - '0' as u32));
        text::law_decimal_is_the_number(m);
        if m == 0 {
            assert(text::decimal(n) =~= seq![c]);
            assert(less =~= Seq::new(less.len(), |i: int| '0'));
            assert(padded(n, s.len()) =~= s);
        } else {
            assert(n / 10 == m);
            assert(text::digit(n) == c);
            assert(text::decimal(n) == text::decimal(m).push(c));
            assert(s =~= less.push(c));
            if text::decimal(m).len() < less.len() {
                let zeros = Seq::new((less.len() - text::decimal(m).len()) as nat, |i: int| '0');
                assert(less == zeros + text::decimal(m));
                assert(padded(n, s.len()) =~= zeros + text::decimal(m).push(c));
                assert(zeros + text::decimal(m).push(c) =~= less.push(c));
            } else {
                assert(less == text::decimal(m));
            }
        }
    }
}

/// Zeros before digits do not count.
proof fn lemma_padded_is_read(n: nat, width: nat)
    ensures
        text::number(padded(n, width)) == n,
        text::all_digits(padded(n, width)),
        padded(n, width).len() >= width,
        padded(n, width).len() >= text::decimal(n).len(),
{
    text::lemma_decimal_is_read(n);
    let d = text::decimal(n);
    if d.len() < width {
        lemma_zeros_before(Seq::new((width - d.len()) as nat, |i: int| '0'), d);
    }
}

proof fn lemma_zeros_before(zeros: Seq<char>, s: Seq<char>)
    requires
        forall|i: int| 0 <= i < zeros.len() ==> #[trigger] zeros[i] == '0',
        forall|i: int| 0 <= i < s.len() ==> text::is_digit(#[trigger] s[i]),
    ensures
        text::number(zeros + s) == text::number(s),
        forall|i: int| 0 <= i < zeros.len() + s.len() ==> text::is_digit(#[trigger] (zeros + s)[i]),
    decreases s.len() + zeros.len(),
{
    let all = zeros + s;
    assert forall|i: int| 0 <= i < zeros.len() + s.len() implies text::is_digit(#[trigger] all[i]) by {
        if i < zeros.len() {
            assert(all[i] == zeros[i]);
        } else {
            assert(all[i] == s[i - zeros.len()]);
        }
    }
    if s.len() > 0 {
        let less = s.drop_last();
        assert forall|i: int| 0 <= i < less.len() implies text::is_digit(#[trigger] less[i]) by {
            assert(less[i] == s[i]);
        }
        lemma_zeros_before(zeros, less);
        assert(all.drop_last() =~= zeros + less);
        assert(all.last() == s.last());
    } else if zeros.len() > 0 {
        let fewer = zeros.drop_last();
        assert forall|i: int| 0 <= i < fewer.len() implies #[trigger] fewer[i] == '0' by {
            assert(fewer[i] == zeros[i]);
        }
        lemma_zeros_before(fewer, s);
        assert(all.drop_last() =~= fewer + s);
        assert(all.last() == zeros[zeros.len() - 1]);
    } else {
        assert(all =~= s);
    }
}

/// A numeric range begins with its lower end as it is written, so the zeros of
/// the lower end say how wide every step is; it counts by one up to its upper
/// end, no step has a zero in front that its width does not ask for, and no
/// step is narrower than the lower end.
pub proof fn law_a_range_counts_from_its_lower_end(low: Seq<char>, high: Seq<char>)
    requires
        text::all_digits(low),
        text::all_digits(high),
        text::number(low) <= text::number(high) <= u64::MAX,
        low.len() <= usize::MAX,
    ensures
        counted(low, high) matches Some(c) && {
            &&& ascends(c)
            &&& steps(c).len() == text::number(high) - text::number(low) + 1
            &&& steps(c)[0] == low
            &&& high.len() == low.len() ==> steps(c).last() == high
            &&& forall|i: int|
                0 <= i < steps(c).len() ==> {
                    &&& text::all_digits(#[trigger] steps(c)[i])
                    &&& text::number(steps(c)[i]) == text::number(low) + i
                    &&& steps(c)[i].len() >= low.len()
                    &&& steps(c)[i].len() > low.len() ==> steps(c)[i][0] != '0'
                }
        },
{
    let c = counted(low, high)->Some_0;
    let from = text::number(low);
    let width: nat = if low[0] == '0' {
        low.len()
    } else {
        1
    };
    assert forall|i: int| 0 <= i < steps(c).len() implies {
        &&& text::all_digits(#[trigger] steps(c)[i])
        &&& text::number(steps(c)[i]) == text::number(low) + i
        &&& steps(c)[i].len() >= low.len()
        &&& steps(c)[i].len() > low.len() ==> steps(c)[i][0] != '0'
    } by {
        let n = (from + i) as nat;
        assert(steps(c)[i] == padded(n, width));
        lemma_padded_is_read(n, width);
        text::law_decimal_is_the_number(n);
        text::law_decimal_grows(from, n);
        if low[0] != '0' {
            text::law_number_is_written_back(low);
            text::law_decimal_is_the_number(from);
            assert(n > 0);
        } else if steps(c)[i].len() > low.len() {
            assert(steps(c)[i] == text::decimal(n));
            assert(text::decimal(n).len() > 1);
            if n == 0 {
                assert(text::decimal(n) =~= seq!['0']);
            }
        }
    }
    lemma_padded_is_written_back(low);
    if low[0] != '0' {
        text::law_number_is_written_back(low);
    }
    assert(steps(c)[0] == padded(from, width));
    if high.len() == low.len() {
        lemma_padded_is_written_back(high);
        let n = text::number(high);
        text::law_decimal_is_the_number(n);
        assert(steps(c).last() == padded(n, width));
        if low[0] != '0' {
            text::law_decimal_grows(from, n);
        }
    }
}

/// A range of letters begins with the one end and goes on letter by letter to
/// the other.
pub proof fn law_a_range_of_letters_goes_letter_by_letter(low: char, high: char)
    requires
        ('a' <= low <= 'z' && 'a' <= high <= 'z') || ('A' <= low <= 'Z' && 'A' <= high <= 'Z'),
        low <= high,
    ensures
        counted(seq![low], seq![high]) matches Some(c) && {
            &&& ascends(c)
            &&& steps(c).len() == high as int - low as int + 1
            &&& steps(c)[0] == seq![low]
            &&& steps(c).last() == seq![high]
            &&& forall|i: int|
                0 <= i < steps(c).len() ==> #[trigger] steps(c)[i] == seq![
                    (low as u32 + i) as char,
                ]
        },
{
    let l = seq![low];
    assert(l[0] == low);
    assert(!text::is_digit(l[0]));
    assert(!text::all_digits(l));
    let c = counted(l, seq![high])->Some_0;
    assert(c == Count::Letters { low: low as u8, high: high as u8 });
    assert(steps(c).last() == steps(c)[high as int - low as int]);
}

/// What is no range: digits with anything else, letters of two cases, more
/// than one letter, or an end that is missing.
pub proof fn law_a_range_has_two_ends_of_one_kind(low: Seq<char>, high: Seq<char>)
    requires
        counted(low, high) is Some,
    ensures
        (text::all_digits(low) && text::all_digits(high)) || (low.len() == 1 && high.len() == 1 && ((
        'a' <= low[0] <= 'z' && 'a' <= high[0] <= 'z') || ('A' <= low[0] <= 'Z' && 'A' <= high[0]
            <= 'Z'))),
{
}

/// A term with a range in brackets stands for a name for every step, with what
/// is before the brackets before it and what is behind them behind it; the
/// first is written with the lower end as it stands.
pub proof fn law_a_range_stands_for_its_names(
    prefix: Seq<char>,
    low: Seq<char>,
    high: Seq<char>,
    suffix: Seq<char>,
)
    requires
        forall|i: int| 0 <= i < prefix.len() ==> prefix[i] != '[',
        text::all_digits(low),
        text::all_digits(high),
        text::number(low) <= text::number(high) <= u64::MAX,
        low.len() <= usize::MAX,
    ensures
        span(prefix + seq!['['] + low + seq![':'] + high + seq![']'] + suffix) matches Some(r) && {
            &&& span_names(r).len() == text::number(high) - text::number(low) + 1
            &&& span_names(r)[0] == prefix + low + suffix
            &&& forall|i: int|
                0 <= i < span_names(r).len() ==> (#[trigger] span_names(r)[i]).len() >= prefix.len()
                    + low.len() + suffix.len()
            &&& high.len() == low.len() ==> span_names(r).last() == prefix + high + suffix
        },
{
    let term = prefix + seq!['['] + low + seq![':'] + high + seq![']'] + suffix;
    let open = prefix.len() as int;
    let colon = low.len() as int;
    let close = open + 1 + low.len() + 1 + high.len();
    assert(term[open] == '[');
    assert forall|j: int| 0 <= j < open implies term[j] != '[' by {
        assert(term[j] == prefix[j]);
    }
    lemma_next_is(term, '[', 0, open);
    assert(term[close] == ']');
    assert forall|j: int| open <= j < close implies term[j] != ']' by {
        if open < j < open + 1 + low.len() {
            assert(term[j] == low[j - open - 1]);
            assert(text::is_digit(low[j - open - 1]));
        } else if open + 1 + low.len() < j {
            assert(term[j] == high[j - open - 2 - low.len()]);
            assert(text::is_digit(high[j - open - 2 - low.len()]));
        }
    }
    lemma_next_is(term, ']', open, close);
    let inner = term.subrange(open + 1, close);
    assert(inner =~= low + seq![':'] + high);
    assert forall|j: int| 0 <= j < colon implies inner[j] != ':' by {
        assert(inner[j] == low[j]);
        assert(text::is_digit(low[j]));
    }
    lemma_next_is(inner, ':', 0, colon);
    assert(inner.subrange(0, colon) =~= low);
    assert(inner.subrange(colon + 1, inner.len() as int) =~= high);
    assert(term.subrange(0, open) =~= prefix);
    assert(term.subrange(close + 1, term.len() as int) =~= suffix);
    law_a_range_counts_from_its_lower_end(low, high);
    let r = span(term)->Some_0;
    assert(r.prefix == prefix && r.suffix == suffix);
    let all = steps(r.count);
    assert forall|i: int| 0 <= i < span_names(r).len() implies (#[trigger] span_names(r)[i]).len()
        >= prefix.len() + low.len() + suffix.len() by {
        assert(all[i].len() >= low.len());
    }
}

proof fn lemma_next_is(s: Seq<char>, c: char, from: int, at: int)
    requires
        0 <= from <= at < s.len(),
        s[at] == c,
        forall|j: int| from <= j < at ==> s[j] != c,
    ensures
        next_of(s, c, from) == Some(at),
{
    lemma_next_of(s, c, from);
    match next_of(s, c, from) {
        Some(i) => {
            if i < at {
                assert(s[i] != c);
            } else if i > at {
                assert(s[at] != c);
            }
        },
        None => {
            assert(s[at] != c);
        },
    }
}

proof fn lemma_gathered_holds(hosts: Seq<Seq<char>>, more: Seq<Seq<char>>)
    ensures
        gathered(hosts, more).len() >= hosts.len(),
        gathered(hosts, more).take(hosts.len() as int) == hosts,
        forall|h: Seq<char>| #[trigger]
            gathered(hosts, more).contains(h) <==> hosts.contains(h) || more.contains(h),
    decreases more.len(),
{
    if more.len() == 0 {
        assert(hosts.take(hosts.len() as int) =~= hosts);
    } else {
        let less = more.drop_last();
        let last = more.last();
        lemma_gathered_holds(hosts, less);
        let before = gathered(hosts, less);
        let r = gathered(hosts, more);
        assert(r.take(hosts.len() as int) =~= before.take(hosts.len() as int));
        assert forall|h: Seq<char>| #[trigger] r.contains(h) <==> hosts.contains(h) || more.contains(h) by {
            if more.contains(h) && h != last {
                let i = choose|i: int| 0 <= i < more.len() && more[i] == h;
                assert(less[i] == h);
                assert(less.contains(h));
            }
            if less.contains(h) {
                let i = choose|i: int| 0 <= i < less.len() && less[i] == h;
                assert(more[i] == h);
            }
            assert(more[more.len() - 1] == last);
            if before.contains(h) {
                let i = choose|i: int| 0 <= i < before.len() && before[i] == h;
                assert(r[i] == h);
            }
            if r.contains(h) && !before.contains(h) {
                let i = choose|i: int| 0 <= i < r.len() && r[i] == h;
                assert(i == before.len());
            }
            if h == last && !before.contains(last) {
                assert(r[before.len() as int] == last);
            }
        }
    }
}

proof fn lemma_gathered_fresh(hosts: Seq<Seq<char>>, more: Seq<Seq<char>>)
    requires
        more.no_duplicates(),
        forall|i: int| 0 <= i < more.len() ==> !hosts.contains(#[trigger] more[i]),
    ensures
        gathered(hosts, more) == hosts + more,
    decreases more.len(),
{
    if more.len() == 0 {
        assert(hosts + more =~= hosts);
    } else {
        let less = more.drop_last();
        assert forall|i: int| 0 <= i < less.len() implies !hosts.contains(#[trigger] less[i]) by {
            assert(less[i] == more[i]);
        }
        assert(less.no_duplicates()) by {
            assert forall|i: int, j: int|
                0 <= i < less.len() && 0 <= j < less.len() && i != j implies less[i] != less[j] by {
                assert(more[i] != more[j]);
            }
        }
        lemma_gathered_fresh(hosts, less);
        let last = more[more.len() - 1];
        assert(!(hosts + less).contains(last)) by {
            if (hosts + less).contains(last) {
                let i = choose|i: int| 0 <= i < (hosts + less).len() && (hosts + less)[i] == last;
                if i < hosts.len() {
                    assert(hosts[i] == last);
                } else {
                    assert(more[i - hosts.len()] == last);
                }
            }
        }
        assert(hosts + more =~= (hosts + less).push(last));
    }
}

/// A term adds the hosts that it names behind those that are selected already,
/// and takes none of those away.
pub proof fn law_a_term_adds_its_hosts(
    f: Fleet,
    terms: Seq<Seq<char>>,
    term: Seq<char>,
    host: Seq<char>,
)
    requires
        text::trim(term).len() > 0,
        text::trim(term)[0] != '!',
        expanded(f, terms) is Ok,
        resolved(f, text::trim(term), Seq::empty()) is Ok,
    ensures
        expanded(f, terms.push(term)) is Ok,
        expanded(f, terms.push(term))->Ok_0.len() >= expanded(f, terms)->Ok_0.len(),
        forall|i: int|
            0 <= i < expanded(f, terms)->Ok_0.len() ==> #[trigger] expanded(f, terms.push(term))->Ok_0[i]
                == expanded(f, terms)->Ok_0[i],
        expanded(f, terms.push(term))->Ok_0.contains(host) <==> expanded(f, terms)->Ok_0.contains(
            host,
        ) || resolved(f, text::trim(term), Seq::empty())->Ok_0.contains(host),
{
    assert(terms.push(term).drop_last() =~= terms);
    let hosts = expanded(f, terms)->Ok_0;
    let more = resolved(f, text::trim(term), Seq::empty())->Ok_0;
    lemma_gathered_holds(hosts, more);
    let r = gathered(hosts, more);
    assert forall|i: int| 0 <= i < hosts.len() implies #[trigger] r[i] == hosts[i] by {
        assert(r.take(hosts.len() as int)[i] == r[i]);
    }
}

/// A term of nothing but white space says nothing, and one that cannot be
/// resolved fails the selection.
pub proof fn law_a_blank_term_says_nothing(f: Fleet, terms: Seq<Seq<char>>, term: Seq<char>)
    ensures
        text::trim(term).len() == 0 ==> expanded(f, terms.push(term)) == expanded(f, terms),
        expanded(f, terms) is Err ==> expanded(f, terms.push(term)) is Err,
        text::trim(term).len() > 0 && text::trim(term)[0] != '!' && resolved(
            f,
            text::trim(term),
            Seq::empty(),
        ) is Err ==> expanded(f, terms.push(term)) is Err,
        text::trim(term) == seq!['!'] ==> expanded(f, terms.push(term)) is Err,
        expanded(f, Seq::empty()) == Ok::<Seq<Seq<char>>, Seq<char>>(Seq::empty()),
{
    assert(terms.push(term).drop_last() =~= terms);
}

/// Whether a term is the name of one host: no group, and no character in it
/// that a range or a pattern is written with.
pub open spec fn is_plain(f: Fleet, term: Seq<char>) -> bool {
    &&& !f.groups.dom().contains(term)
    &&& forall|i: int| 0 <= i < term.len() ==> term[i] != '*' && term[i] != '?' && term[i] != '['
}

/// A plain name is the host of that name, listed or not.
pub proof fn law_a_plain_name_is_its_host(f: Fleet, term: Seq<char>, chain: Seq<Seq<char>>)
    requires
        f.groups.dom().finite(),
        is_plain(f, term),
    ensures
        resolved(f, term, chain) == Ok::<Seq<Seq<char>>, Seq<char>>(seq![term]),
{
    lemma_next_of(term, '[', 0);
    assert(span(term) is None);
    assert(!is_wild(term));
}

proof fn lemma_plain_names(f: Fleet, terms: Seq<Seq<char>>, chain: Seq<Seq<char>>)
    requires
        f.groups.dom().finite(),
        terms.no_duplicates(),
        forall|i: int| 0 <= i < terms.len() ==> is_plain(f, #[trigger] terms[i]),
    ensures
        resolved_all(f, terms, chain) == Ok::<Seq<Seq<char>>, Seq<char>>(terms),
    decreases terms.len(),
{
    if terms.len() == 0 {
        assert(terms =~= Seq::empty());
    } else {
        let less = terms.drop_last();
        let last = terms[terms.len() - 1];
        assert forall|i: int| 0 <= i < less.len() implies is_plain(f, #[trigger] less[i]) by {
            assert(less[i] == terms[i]);
        }
        assert(less.no_duplicates()) by {
            assert forall|i: int, j: int|
                0 <= i < less.len() && 0 <= j < less.len() && i != j implies less[i] != less[j] by {
                assert(terms[i] != terms[j]);
            }
        }
        lemma_plain_names(f, less, chain);
        law_a_plain_name_is_its_host(f, last, chain);
        assert(!less.contains(last)) by {
            if less.contains(last) {
                let i = choose|i: int| 0 <= i < less.len() && less[i] == last;
                assert(terms[i] == last);
            }
        }
        assert forall|i: int| 0 <= i < 1 implies !less.contains(#[trigger] seq![last][i]) by {}
        lemma_gathered_fresh(less, seq![last]);
        assert(less + seq![last] =~= terms);
    }
}

/// A group of plain names is those hosts, in the order in which they are
/// listed.
pub proof fn law_a_group_is_its_hosts(f: Fleet, group: Seq<char>)
    requires
        f.groups.dom().finite(),
        f.groups.dom().contains(group),
        f.groups[group].no_duplicates(),
        forall|i: int| 0 <= i < f.groups[group].len() ==> is_plain(f, #[trigger] f.groups[group][i]),
    ensures
        resolved(f, group, Seq::empty()) == Ok::<Seq<Seq<char>>, Seq<char>>(f.groups[group]),
{
    lemma_plain_names(f, f.groups[group], Seq::empty().push(group));
}

/// A range whose names are plain is the hosts of those names, in their order,
/// and one that counts backwards is refused.
pub proof fn law_a_range_is_its_hosts(f: Fleet, term: Seq<char>)
    requires
        f.groups.dom().finite(),
        !f.groups.dom().contains(term),
        span(term) is Some,
    ensures
        ascends(span(term)->0.count) && span_names(span(term)->0).no_duplicates() && (forall|i: int|
            0 <= i < span_names(span(term)->0).len() ==> is_plain(
                f,
                #[trigger] span_names(span(term)->0)[i],
            )) ==> resolved(f, term, Seq::empty()) == Ok::<Seq<Seq<char>>, Seq<char>>(
            span_names(span(term)->0),
        ),
        !ascends(span(term)->0.count) ==> resolved(f, term, Seq::empty()) is Err,
{
    let names = span_names(span(term)->0);
    if ascends(span(term)->0.count) && names.no_duplicates() && (forall|i: int|
        0 <= i < names.len() ==> is_plain(f, #[trigger] names[i])) {
        lemma_plain_names(f, names, Seq::empty());
    }
}

/// A group that is a member of itself is refused, as is one that is a member of
/// its own member.
pub proof fn law_a_circle_of_groups_is_refused(f: Fleet, a: Seq<char>, b: Seq<char>)
    requires
        f.groups.dom().finite(),
        f.groups.dom().contains(a),
        f.groups.dom().contains(b),
        f.groups[a] == seq![b],
        f.groups[b] == seq![a],
    ensures
        resolved(f, a, Seq::empty()) is Err,
{
    let none = Seq::<Seq<char>>::empty();
    let one = none.push(a);
    assert(one[0] == a);
    assert(one.contains(a));
    if a == b {
        lemma_all_of_one(f, a, one);
    } else {
        let two = one.push(b);
        assert(two[0] == a);
        assert(two.contains(a));
        lemma_all_of_one(f, a, two);
        assert(!one.contains(b)) by {
            if one.contains(b) {
                let i = choose|i: int| 0 <= i < one.len() && one[i] == b;
                assert(i == 0);
            }
        }
        lemma_all_of_one(f, b, one);
    }
}

proof fn lemma_all_of_one(f: Fleet, term: Seq<char>, chain: Seq<Seq<char>>)
    requires
        f.groups.dom().finite(),
    ensures
        resolved_all(f, seq![term], chain) is Ok <==> resolved(f, term, chain) is Ok,
{
    let terms = seq![term];
    assert(terms.drop_last() =~= Seq::empty());
    assert(terms.last() == term);
    assert(resolved_all(f, Seq::empty(), chain) == Ok::<Seq<Seq<char>>, Seq<char>>(Seq::empty()));
}

/// A host that is taken away leaves the others in their order, and one that is
/// not selected takes nothing away.
pub proof fn law_what_is_left_keeps_its_order(
    hosts: Seq<Seq<char>>,
    host: Seq<char>,
    taken: Seq<Seq<char>>,
)
    ensures
        without(Seq::empty(), taken).len() == 0,
        taken.contains(host) ==> without(hosts.push(host), taken) == without(hosts, taken),
        !taken.contains(host) ==> without(hosts.push(host), taken) == without(hosts, taken).push(host),
{
    assert(hosts.push(host).drop_last() =~= hosts);
}

/// Terms are split at their commas, one behind the other.
pub proof fn law_terms_are_split_in_their_order(terms: Seq<Seq<char>>, term: Seq<char>)
    ensures
        terms_of(Seq::empty()).len() == 0,
        terms_of(terms.push(term)) == terms_of(terms) + text::split(term, ','),
{
    assert(terms.push(term).drop_last() =~= terms);
}

/// A member of a group names the host of its own name when it is plain, the
/// hosts of its names when it is a range, and none by itself when it is the
/// name of a group or a pattern.
pub proof fn law_a_member_names_its_hosts(f: Fleet, member: Seq<char>, host: Seq<char>)
    ensures
        f.groups.dom().contains(member) ==> !names_host(f, member, host),
        is_plain(f, member) ==> (names_host(f, member, host) <==> host == member),
        !f.groups.dom().contains(member) && span(member) is Some ==> (names_host(f, member, host)
            <==> exists|i: int|
            0 <= i < span_names(span(member)->0).len() && names_host(
                f,
                #[trigger] span_names(span(member)->0)[i],
                host,
            )),
        !f.groups.dom().contains(member) && span(member) is None && (exists|i: int|
            0 <= i < member.len() && (#[trigger] member[i] == '*' || member[i] == '?' || member[i]
                == '[')) ==> !names_host(f, member, host),
        is_host(f, host) <==> all_hosts(f).contains(host),
{
    if is_plain(f, member) {
        lemma_next_of(member, '[', 0);
        assert(span(member) is None);
        assert(!is_wild(member));
    }
}

/// A host of the inventory is one that a member of a group names.
pub proof fn law_a_host_is_a_member_of_a_group(f: Fleet, group: Seq<char>, i: int, host: Seq<char>)
    requires
        f.groups.dom().contains(group),
        0 <= i < f.groups[group].len(),
    ensures
        names_host(f, f.groups[group][i], host) ==> is_host(f, host),
        is_plain(f, f.groups[group][i]) ==> is_host(f, f.groups[group][i]),
{
    law_a_member_names_its_hosts(f, f.groups[group][i], f.groups[group][i]);
}

/// A pattern that matches nothing is refused, as is one that is no pattern.
pub proof fn law_a_pattern_has_to_match(f: Fleet, pattern: Seq<char>)
    ensures
        glob_complaint(pattern) is Some ==> selected(f, pattern) is Err,
        (forall|host: Seq<char>| is_host(f, host) ==> !(#[trigger] glob_matches(pattern, host)))
            ==> selected(f, pattern) is Err,
{
    if forall|host: Seq<char>| is_host(f, host) ==> !(#[trigger] glob_matches(pattern, host)) {
        let matched = all_hosts(f).filter(|host: Seq<char>| glob_matches(pattern, host));
        assert forall|host: Seq<char>| !matched.contains(host) by {
            if matched.contains(host) {
                assert(is_host(f, host));
                assert(glob_matches(pattern, host));
            }
        }
        assert(matched =~= Set::empty());
    }
}

proof fn lemma_next_behind(a: Seq<char>, b: Seq<char>, c: char, from: int)
    requires
        0 <= from,
    ensures
        next_of(a + b, c, a.len() + from) == (match next_of(b, c, from) {
            Some(i) => Some(a.len() + i),
            None => None,
        }),
    decreases b.len() - from,
{
    if from < b.len() {
        assert((a + b)[a.len() + from] == b[from]);
        if b[from] != c {
            lemma_next_behind(a, b, c, from + 1);
        }
    }
}

proof fn lemma_span_behind(a: Seq<char>, b: Seq<char>, from: nat)
    ensures
        span_from(a + b, a.len() + from) == (match span_from(b, from) {
            Some(r) => Some(Span { prefix: a + r.prefix, suffix: r.suffix, count: r.count }),
            None => None,
        }),
    decreases b.len() - from,
{
    let term = a + b;
    let n = a.len() as int;
    lemma_next_behind(a, b, '[', from as int);
    lemma_next_of(b, '[', from as int);
    match next_of(b, '[', from as int) {
        None => {},
        Some(open) => {
            lemma_next_behind(a, b, ']', open);
            lemma_next_of(b, ']', open);
            match next_of(b, ']', open) {
                None => {},
                Some(close) => {
                    assert(b[open] == '[' && b[close] == ']');
                    assert(term.subrange(n + open + 1, n + close) =~= b.subrange(open + 1, close));
                    assert(term.subrange(0, n + open) =~= a + b.subrange(0, open));
                    assert(term.subrange(n + close + 1, term.len() as int) =~= b.subrange(
                        close + 1,
                        b.len() as int,
                    ));
                    if counted_in(b.subrange(open + 1, close)) is None {
                        lemma_span_behind(a, b, (open + 1) as nat);
                    }
                },
            }
        },
    }
}

/// Brackets that hold no range are passed over, and a range behind them is
/// found with everything before it in front of its names.
pub proof fn law_brackets_without_a_range_are_passed_over(
    prefix: Seq<char>,
    inner: Seq<char>,
    rest: Seq<char>,
)
    requires
        forall|i: int| 0 <= i < prefix.len() ==> prefix[i] != '[',
        forall|i: int| 0 <= i < inner.len() ==> inner[i] != '[' && inner[i] != ']',
        counted_in(inner) is None,
    ensures
        ({
            let front = prefix + seq!['['] + inner + seq![']'];
            span(front + rest) == (match span(rest) {
                Some(r) => Some(
                    Span { prefix: front + r.prefix, suffix: r.suffix, count: r.count },
                ),
                None => None,
            })
        }),
{
    let front = prefix + seq!['['] + inner + seq![']'];
    let term = front + rest;
    let open = prefix.len() as int;
    let close = open + 1 + inner.len();
    assert(term[open] == '[');
    assert(term[close] == ']');
    assert forall|j: int| 0 <= j < open implies term[j] != '[' by {
        assert(term[j] == prefix[j]);
    }
    assert forall|j: int| open < j < close implies term[j] != '[' && term[j] != ']' by {
        assert(term[j] == inner[j - open - 1]);
    }
    lemma_next_is(term, '[', 0, open);
    lemma_next_is(term, ']', open, close);
    assert(term.subrange(open + 1, close) =~= inner);
    assert(span(term) == span_from(term, (open + 1) as nat));
    lemma_span_from_later(term, open + 1, front.len() as int);
    lemma_span_behind(front, rest, 0);
}

proof fn lemma_span_from_later(term: Seq<char>, from: int, to: int)
    requires
        0 <= from <= to <= term.len(),
        forall|j: int| from <= j < to ==> term[j] != '[',
    ensures
        span_from(term, from as nat) == span_from(term, to as nat),
{
    lemma_next_later(term, '[', from, to);
}

proof fn lemma_next_later(s: Seq<char>, c: char, from: int, to: int)
    requires
        0 <= from <= to <= s.len(),
        forall|j: int| from <= j < to ==> s[j] != c,
    ensures
        next_of(s, c, from) == next_of(s, c, to),
    decreases to - from,
{
    if from < to {
        lemma_next_later(s, c, from + 1, to);
    }
}

/// An inventory is a document of lists, each under the name of its group, and
/// anything else is refused.
pub proof fn law_an_inventory_is_lists_under_names(path: Seq<char>, body: String)
    ensures
        var::document_in(body@) is Err ==> described(path, Ok(body)) is Err,
        var::document_in(body@) matches Ok(j) ==> (described(path, Ok(body)) is Ok <==> document::is_lists(
            j,
        )),
        described(path, Ok(body)) matches Ok(f) ==> f.path == path && f.groups == document::lists_in(
            var::document_in(body@)->Ok_0,
        ),
        forall|e: String| (#[trigger] described(path, Err(e))) is Err,
{
}

/// The hosts that a pattern selects come in the order of their names.
pub proof fn law_a_pattern_selects_in_order(f: Fleet, pattern: Seq<char>)
    requires
        f.groups.dom().finite(),
        selected(f, pattern) is Ok,
    ensures
        text::ascending(selected(f, pattern)->Ok_0),
{
    let hosts = selected(f, pattern)->Ok_0;
    let matched = all_hosts(f).filter(|host: Seq<char>| glob_matches(pattern, host));
    lemma_hosts_finite(f);
    text::lemma_listing_stands(matched);
}

/// The members of a group are resolved one behind the other, and each host of
/// theirs is taken once; one that cannot be resolved fails the group.
pub proof fn law_members_are_resolved_one_behind_the_other(
    f: Fleet,
    terms: Seq<Seq<char>>,
    term: Seq<char>,
    chain: Seq<Seq<char>>,
    host: Seq<char>,
)
    requires
        f.groups.dom().finite(),
    ensures
        resolved_all(f, Seq::empty(), chain) == Ok::<Seq<Seq<char>>, Seq<char>>(Seq::empty()),
        resolved_all(f, terms, chain) is Err ==> resolved_all(f, terms.push(term), chain) is Err,
        resolved(f, term, chain) is Err ==> resolved_all(f, terms.push(term), chain) is Err,
        resolved_all(f, terms, chain) is Ok && resolved(f, term, chain) is Ok ==> {
            let before = resolved_all(f, terms, chain)->Ok_0;
            let after = resolved_all(f, terms.push(term), chain);
            &&& after is Ok
            &&& after->Ok_0.len() >= before.len()
            &&& after->Ok_0.take(before.len() as int) == before
            &&& after->Ok_0.contains(host) <==> before.contains(host) || resolved(
                f,
                term,
                chain,
            )->Ok_0.contains(host)
        },
{
    assert(terms.push(term).drop_last() =~= terms);
    if resolved_all(f, terms, chain) is Ok && resolved(f, term, chain) is Ok {
        lemma_gathered_holds(resolved_all(f, terms, chain)->Ok_0, resolved(f, term, chain)->Ok_0);
    }
}

/// A group stands for what its members stand for, unless it is among the
/// groups that are being resolved already.
pub proof fn law_a_group_is_its_members(f: Fleet, group: Seq<char>, chain: Seq<Seq<char>>)
    requires
        f.groups.dom().finite(),
        f.groups.dom().contains(group),
    ensures
        chain.contains(group) ==> resolved(f, group, chain) is Err,
        !chain.contains(group) ==> resolved(f, group, chain) == resolved_all(
            f,
            f.groups[group],
            chain.push(group),
        ),
{
}

} // verus!
