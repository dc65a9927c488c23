//! The topic grammar.
//!
//! A topic is a dot-delimited string.  Published instances follow the
//! grammar `groups.<gid>.<facet>[.<extra>]` or `users.<uid>.<facet>[.<extra>]`;
//! subscription patterns are `groups.<gid>.*` and `users.<uid>.*`.
//! Everything here is stated over `split_dots`, the specification-level
//! splitting of a character sequence at `'.'`.

use vstd::prelude::*;

verus! {

/// Splits a character sequence at every `'.'`.  The result always has at
/// least one element; an empty input yields one empty segment, as
/// splitting does in ordinary Rust.
pub open spec fn split_dots(s: Seq<char>) -> Seq<Seq<char>>
    decreases s.len(),
{
    if s.len() == 0 {
        seq![Seq::<char>::empty()]
    } else if s[0] == '.' {
        seq![Seq::<char>::empty()] + split_dots(s.skip(1))
    } else {
        let rest = split_dots(s.skip(1));
        seq![seq![s[0]] + rest[0]] + rest.skip(1)
    }
}

proof fn lemma_split_dots_len(s: Seq<char>)
    ensures
        split_dots(s).len() >= 1,
    decreases s.len(),
{
    if s.len() == 0 {
    } else if s[0] == '.' {
    } else {
        lemma_split_dots_len(s.skip(1));
    }
}

/// A sequence without a dot splits into exactly itself.
proof fn lemma_split_dots_no_dot(s: Seq<char>)
    requires
        forall|i: int| 0 <= i < s.len() ==> s[i] != '.',
    ensures
        split_dots(s) =~~= seq![s],
    decreases s.len(),
{
    if s.len() == 0 {
        assert(split_dots(s) =~~= seq![s]);
    } else {
        assert(s[0] != '.');
        lemma_split_dots_no_dot(s.skip(1));
        assert(seq![s[0]] + s.skip(1) =~= s);
        assert(split_dots(s) =~~= seq![s]);
    }
}

/// Splitting after a dot-free prefix: the prefix extends the first
/// segment of whatever the remainder splits into.
proof fn lemma_split_dots_prefix(a: Seq<char>, b: Seq<char>)
    requires
        forall|i: int| 0 <= i < a.len() ==> a[i] != '.',
    ensures
        split_dots(a + b) =~~= seq![a + split_dots(b)[0]] + split_dots(b).skip(1),
    decreases a.len(),
{
    lemma_split_dots_len(b);
    if a.len() == 0 {
        assert(a + b =~= b);
        assert(split_dots(b) =~~= seq![split_dots(b)[0]] + split_dots(b).skip(1));
    } else {
        let ab = a + b;
        assert(ab[0] == a[0]);
        assert(ab[0] != '.');
        assert(ab.skip(1) =~= a.skip(1) + b);
        lemma_split_dots_prefix(a.skip(1), b);
        let rest = split_dots(a.skip(1) + b);
        assert(split_dots(ab) =~~= seq![seq![a[0]] + rest[0]] + rest.skip(1));
        assert(seq![a[0]] + (a.skip(1) + split_dots(b)[0]) =~= a + split_dots(b)[0]);
        assert(rest.skip(1) =~~= split_dots(b).skip(1));
    }
}

/// Splitting at a leading dot: an empty first segment, then the rest.
proof fn lemma_split_dots_dot_head(b: Seq<char>)
    ensures
        split_dots(seq!['.'] + b) =~~= seq![Seq::<char>::empty()] + split_dots(b),
{
    let db = seq!['.'] + b;
    assert(db[0] == '.');
    assert(db.skip(1) =~= b);
}

/// Splits a string at `'.'` into its segments.
pub fn split_dots_str(s: &str) -> (segs: Vec<String>)
    ensures
        segs.deep_view() == split_dots(s@),
{
    let n = s.unicode_len();
    let mut segs: Vec<String> = Vec::new();
    let mut start: usize = 0;
    let mut i: usize = 0;
    proof {
        assert(s@.skip(0) =~= s@);
        assert(segs.deep_view() =~~= Seq::<Seq<char>>::empty());
        assert(split_dots(s@) =~~= segs.deep_view() + split_dots(s@.skip(0)));
    }
    while i < n
        invariant
            0 <= start <= i <= n,
            n == s@.len(),
            forall|j: int| start <= j < i ==> s@[j] != '.',
            split_dots(s@) =~~= segs.deep_view() + split_dots(s@.skip(start as int)),
        decreases n - i,
    {
        if s.get_char(i) == '.' {
            let piece = s.substring_char(start, i).to_owned();
            let ghost dv0 = segs.deep_view();
            proof {
                let a = s@.subrange(start as int, i as int);
                let b = s@.skip(i as int + 1);
                assert(s@.skip(start as int) =~= a + (seq!['.'] + b));
                lemma_split_dots_prefix(a, seq!['.'] + b);
                lemma_split_dots_dot_head(b);
                lemma_split_dots_len(b);
                assert(split_dots(seq!['.'] + b)[0] =~= Seq::<char>::empty());
                assert(split_dots(seq!['.'] + b).skip(1) =~~= split_dots(b));
                assert(a + Seq::<char>::empty() =~= a);
                assert(split_dots(s@.skip(start as int)) =~~= seq![a] + split_dots(b));
            }
            segs.push(piece);
            proof {
                assert(segs.deep_view() =~~= dv0 + seq![piece@]);
                assert(split_dots(s@) =~~= segs.deep_view() + split_dots(s@.skip(i as int + 1)));
            }
            start = i + 1;
        }
        i = i + 1;
    }
    let piece = s.substring_char(start, n).to_owned();
    let ghost dv0 = segs.deep_view();
    proof {
        let a = s@.subrange(start as int, n as int);
        assert(s@.skip(start as int) =~= a);
        lemma_split_dots_no_dot(a);
    }
    segs.push(piece);
    proof {
        assert(segs.deep_view() =~~= dv0 + seq![piece@]);
        assert(segs.deep_view() =~= split_dots(s@));
    }
    segs
}

// ---- decimal group ids ----

pub open spec fn is_digit(c: char) -> bool {
    48 <= c as u32 <= 57
}

pub open spec fn digit_val(c: char) -> int {
    c as u32 - 48
}

/// A non-empty run of decimal digits.
pub open spec fn all_digits(s: Seq<char>) -> bool {
    s.len() > 0 && forall|i: int| 0 <= i < s.len() ==> is_digit(#[trigger] s[i])
}

/// The number the digit run denotes.
pub open spec fn digits_value(s: Seq<char>) -> int
    decreases s.len(),
{
    if s.len() == 0 {
        0
    } else {
        digits_value(s.drop_last()) * 10 + digit_val(s.last())
    }
}

proof fn lemma_digits_value_nonneg(s: Seq<char>)
    requires
        forall|i: int| 0 <= i < s.len() ==> is_digit(#[trigger] s[i]),
    ensures
        digits_value(s) >= 0,
    decreases s.len(),
{
    if s.len() > 0 {
        lemma_digits_value_nonneg(s.drop_last());
    }
}

/// A digit run is worth at least any of its prefixes.
proof fn lemma_digits_prefix_le(s: Seq<char>, k: int)
    requires
        forall|i: int| 0 <= i < s.len() ==> is_digit(#[trigger] s[i]),
        0 <= k <= s.len(),
    ensures
        digits_value(s.take(k)) <= digits_value(s),
    decreases s.len() - k,
{
    if k == s.len() {
        assert(s.take(k) =~= s);
    } else {
        lemma_digits_prefix_le(s, k + 1);
        assert(s.take(k + 1).drop_last() =~= s.take(k));
        assert(s.take(k + 1).last() == s[k]);
        lemma_digits_value_nonneg(s.take(k));
        assert(digits_value(s.take(k)) <= digits_value(s.take(k)) * 10 + digit_val(s[k]));
    }
}

/// Parses a non-empty decimal digit run that fits in an `i32`.
pub fn parse_group_id(s: &str) -> (r: Option<i32>)
    ensures
        match r {
            Some(v) => all_digits(s@) && digits_value(s@) <= i32::MAX && v == digits_value(s@),
            None => !all_digits(s@) || digits_value(s@) > i32::MAX,
        },
{
    let n = s.unicode_len();
    if n == 0 {
        return None;
    }
    let mut acc: u64 = 0;
    let mut i: usize = 0;
    proof {
        assert(s@.take(0) =~= Seq::<char>::empty());
    }
    while i < n
        invariant
            0 <= i <= n,
            n == s@.len(),
            forall|j: int| 0 <= j < i ==> is_digit(#[trigger] s@[j]),
            acc <= i32::MAX,
            acc == digits_value(s@.take(i as int)),
        decreases n - i,
    {
        let c = s.get_char(i);
        let cv = c as u32;
        if cv < 48 || cv > 57 {
            return None;
        }
        let d = (cv - 48) as u64;
        let next = acc * 10 + d;
        proof {
            assert(s@.take(i + 1).drop_last() =~= s@.take(i as int));
            assert(s@.take(i + 1).last() == s@[i as int]);
        }
        if next > i32::MAX as u64 {
            proof {
                if all_digits(s@) {
                    lemma_digits_prefix_le(s@, i + 1);
                }
            }
            return None;
        }
        acc = next;
        i = i + 1;
    }
    proof {
        assert(s@.take(n as int) =~= s@);
    }
    Some(acc as i32)
}

// ---- string comparison ----

/// Character-for-character string equality, stated over the views.
pub fn str_eq(a: &str, b: &str) -> (r: bool)
    ensures
        r == (a@ == b@),
{
    let sa = a.to_owned();
    let sb = b.to_owned();
    sa.eq(&sb)
}

// ---- subscription patterns ----

/// A subscription pattern: the owning prefix of a family of topics,
/// `groups.<gid>.*` or `users.<uid>.*`.
pub enum Pattern {
    Group { gid: i32 },
    User { uid: String },
}

/// The mathematical shape of a [`Pattern`].
pub enum PatternView {
    Group { gid: int },
    User { uid: Seq<char> },
}

impl View for Pattern {
    type V = PatternView;

    open spec fn view(&self) -> PatternView {
        match self {
            Pattern::Group { gid } => PatternView::Group { gid: *gid as int },
            Pattern::User { uid } => PatternView::User { uid: uid@ },
        }
    }
}

impl DeepView for Pattern {
    type V = PatternView;

    open spec fn deep_view(&self) -> PatternView {
        self.view()
    }
}

impl Pattern {
    /// A structural copy of the pattern.
    pub fn dup(&self) -> (r: Pattern)
        ensures
            r@ == self@,
    {
        match self {
            Pattern::Group { gid } => Pattern::Group { gid: *gid },
            Pattern::User { uid } => Pattern::User { uid: uid.clone() },
        }
    }
}

/// Structural pattern equality, stated over the views.
pub fn pattern_eq(a: &Pattern, b: &Pattern) -> (r: bool)
    ensures
        r == (a@ == b@),
{
    match (a, b) {
        (Pattern::Group { gid: g1 }, Pattern::Group { gid: g2 }) => g1 == g2,
        (Pattern::User { uid: u1 }, Pattern::User { uid: u2 }) => u1.eq(u2),
        _ => false,
    }
}

// ---- owner pattern of a published instance ----

/// The pattern an instance belongs to: its first two segments, provided
/// the instance has at least namespace, id and facet, the namespace is
/// known, and a group id is a decimal number that fits in an `i32`.
pub open spec fn spec_owner_pattern(s: Seq<char>) -> Option<PatternView> {
    let segs = split_dots(s);
    if segs.len() < 3 {
        None
    } else if segs[0] == "groups"@ {
        if all_digits(segs[1]) && digits_value(segs[1]) <= i32::MAX {
            Some(PatternView::Group { gid: digits_value(segs[1]) })
        } else {
            None
        }
    } else if segs[0] == "users"@ {
        Some(PatternView::User { uid: segs[1] })
    } else {
        None
    }
}

/// Parses a published instance down to its owning pattern; a malformed
/// or unknown topic yields `None` and is dropped by callers.
pub fn owner_pattern(s: &str) -> (r: Option<Pattern>)
    ensures
        match r {
            Some(p) => spec_owner_pattern(s@) == Some(p@),
            None => spec_owner_pattern(s@) is None,
        },
{
    let segs = split_dots_str(s);
    if segs.len() < 3 {
        return None;
    }
    if str_eq(segs[0].as_str(), "groups") {
        match parse_group_id(segs[1].as_str()) {
            Some(gid) => Some(Pattern::Group { gid }),
            None => None,
        }
    } else if str_eq(segs[0].as_str(), "users") {
        Some(Pattern::User { uid: segs[1].clone() })
    } else {
        None
    }
}

// ---- membership-change topics ----

/// First segment equal to `key`, or `-1` when there is none.
pub open spec fn find_seg(segs: Seq<Seq<char>>, key: Seq<char>) -> int
    decreases segs.len(),
{
    if segs.len() == 0 {
        -1
    } else if segs[0] == key {
        0
    } else {
        let r = find_seg(segs.skip(1), key);
        if r == -1 {
            -1
        } else {
            1 + r
        }
    }
}

proof fn lemma_find_seg_at(segs: Seq<Seq<char>>, key: Seq<char>, k: int)
    requires
        0 <= k < segs.len(),
        segs[k] == key,
        forall|j: int| 0 <= j < k ==> segs[j] != key,
    ensures
        find_seg(segs, key) == k,
    decreases segs.len(),
{
    if k > 0 {
        lemma_find_seg_at(segs.skip(1), key, k - 1);
    }
}

proof fn lemma_find_seg_none(segs: Seq<Seq<char>>, key: Seq<char>)
    requires
        forall|j: int| 0 <= j < segs.len() ==> segs[j] != key,
    ensures
        find_seg(segs, key) == -1,
    decreases segs.len(),
{
    if segs.len() > 0 {
        lemma_find_seg_none(segs.skip(1), key);
    }
}

/// A membership-change instance: its last segment is `joined`.
pub open spec fn spec_is_joined(s: Seq<char>) -> bool {
    let segs = split_dots(s);
    segs.len() >= 2 && segs.last() == "joined"@
}

/// The group id a membership-change instance announces: the decimal
/// segment right after the first segment that reads `groups`.
pub open spec fn spec_joined_gid(s: Seq<char>) -> Option<int> {
    let segs = split_dots(s);
    let k = find_seg(segs, "groups"@);
    if 0 <= k && k + 1 < segs.len() && all_digits(segs[k + 1]) && digits_value(segs[k + 1])
        <= i32::MAX {
        Some(digits_value(segs[k + 1]))
    } else {
        None
    }
}

/// Whether an instance announces a joined group membership.
pub fn is_joined(s: &str) -> (r: bool)
    ensures
        r == spec_is_joined(s@),
{
    let segs = split_dots_str(s);
    if segs.len() < 2 {
        proof {
            lemma_split_dots_len(s@);
        }
        return false;
    }
    str_eq(segs[segs.len() - 1].as_str(), "joined")
}

/// Extracts the group id from a membership-change instance.
pub fn joined_group_id(s: &str) -> (r: Option<i32>)
    ensures
        match r {
            Some(v) => spec_joined_gid(s@) == Some(v as int),
            None => spec_joined_gid(s@) is None,
        },
{
    let segs = split_dots_str(s);
    let n = segs.len();
    let mut i: usize = 0;
    while i < n
        invariant
            0 <= i <= n,
            n == segs.deep_view().len(),
            segs.deep_view() == split_dots(s@),
            forall|j: int| 0 <= j < i ==> segs.deep_view()[j] != "groups"@,
        decreases n - i,
    {
        if str_eq(segs[i].as_str(), "groups") {
            proof {
                lemma_find_seg_at(segs.deep_view(), "groups"@, i as int);
            }
            if i + 1 < n {
                return parse_group_id(segs[i + 1].as_str());
            } else {
                return None;
            }
        }
        i = i + 1;
    }
    proof {
        lemma_find_seg_none(segs.deep_view(), "groups"@);
    }
    None
}

} // verus!
