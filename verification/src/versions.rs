//! The order in which versions of a candidate are listed.
use vstd::prelude::*;
use std::cmp::Ordering;
use crate::numbers::{parse_i32, parse_i32_spec};
use crate::text::{chars_of, string_of_range};

verus! {

/// The number of bytes that UTF-8 takes for `c`.
pub open spec fn utf8_width(c: char) -> int {
    if (c as int) < 0x80 {
        1
    } else if (c as int) < 0x800 {
        2
    } else if (c as int) < 0x10000 {
        3
    } else {
        4
    }
}

/// The number of bytes that UTF-8 takes for `s`.
pub open spec fn utf8_len(s: Seq<char>) -> int
    decreases s.len(),
{
    if s.len() == 0 {
        0
    } else {
        utf8_len(s.drop_last()) + utf8_width(s.last())
    }
}

/// The position of the first `.` in `s`, or its length when there is none.
pub open spec fn first_dot(s: Seq<char>) -> int
    decreases s.len(),
{
    if s.len() == 0 {
        0
    } else if s[0] == '.' {
        0
    } else {
        1 + first_dot(s.drop_first())
    }
}

/// The smaller of two integers.
pub open spec fn min_int(a: int, b: int) -> int {
    if a <= b {
        a
    } else {
        b
    }
}

/// The leading chunk of a version and what follows its dot. The dot is found by
/// its byte offset, which is then used to count characters (as `str::find`
/// and `chars().take` combine); for ASCII text this is the text before and after
/// the first dot.
pub open spec fn leading_chunk(v: Seq<char>) -> (Seq<char>, Seq<char>) {
    if v.len() == 0 {
        (Seq::<char>::empty(), Seq::<char>::empty())
    } else {
        let d = utf8_len(v.take(first_dot(v)));
        (v.take(min_int(d, v.len() as int)), v.skip(min_int(d + 1, v.len() as int)))
    }
}

pub proof fn lemma_first_dot(s: Seq<char>)
    ensures
        0 <= first_dot(s) <= s.len(),
        first_dot(s) < s.len() ==> s[first_dot(s)] == '.',
        forall|k: int| 0 <= k < first_dot(s) ==> s[k] != '.',
    decreases s.len(),
{
    if s.len() > 0 && s[0] != '.' {
        lemma_first_dot(s.drop_first());
        assert forall|k: int| 0 <= k < first_dot(s) implies s[k] != '.' by {
            if k > 0 {
                assert(s[k] == s.drop_first()[k - 1]);
            }
        }
    }
}

proof fn lemma_first_dot_at(s: Seq<char>, i: int)
    requires
        0 <= i < s.len(),
        s[i] == '.',
        forall|k: int| 0 <= k < i ==> s[k] != '.',
    ensures
        first_dot(s) == i,
    decreases i,
{
    if i > 0 {
        assert(s.drop_first()[i - 1] == s[i]);
        assert forall|k: int| 0 <= k < i - 1 implies s.drop_first()[k] != '.' by {
            assert(s.drop_first()[k] == s[k + 1]);
        }
        lemma_first_dot_at(s.drop_first(), i - 1);
    }
}

proof fn lemma_first_dot_none(s: Seq<char>)
    requires
        forall|k: int| 0 <= k < s.len() ==> s[k] != '.',
    ensures
        first_dot(s) == s.len(),
    decreases s.len(),
{
    if s.len() > 0 {
        assert forall|k: int| 0 <= k < s.len() - 1 implies s.drop_first()[k] != '.' by {
            assert(s.drop_first()[k] == s[k + 1]);
        }
        lemma_first_dot_none(s.drop_first());
    }
}

/// The number of bytes that UTF-8 takes for `c`.
fn utf8_width_of(c: char) -> (w: usize)
    ensures
        w == utf8_width(c),
{
    let u = c as u32;
    if u < 0x80 {
        1
    } else if u < 0x800 {
        2
    } else if u < 0x10000 {
        3
    } else {
        4
    }
}

/// Splits a version at its first dot (see [`leading_chunk`]).
pub fn extract_leading_version_chunk(v: &str) -> (r: (String, String))
    ensures
        (r.0@, r.1@) == leading_chunk(v@),
{
    let cs = chars_of(v);
    let n = cs.len();
    if n == 0 {
        return (String::new(), String::new());
    }
    // the byte offset of the first dot, counted no further than `n`
    let mut offset: usize = 0;
    let mut i: usize = 0;
    while i < n && cs[i] != '.'
        invariant
            i <= n == cs@.len(),
            cs@ == v@,
            forall|k: int| 0 <= k < i ==> cs@[k] != '.',
            offset == min_int(utf8_len(v@.take(i as int)), n as int),
        decreases n - i,
    {
        let w = utf8_width_of(cs[i]);
        assert(v@.take(i + 1).drop_last() =~= v@.take(i as int));
        assert(v@.take(i + 1).last() == cs@[i as int]);
        if w > n - offset {
            offset = n;
        } else {
            offset = offset + w;
        }
        i = i + 1;
    }
    proof {
        if i < n {
            lemma_first_dot_at(v@, i as int);
        } else {
            lemma_first_dot_none(v@);
        }
    }
    let after = if offset < n {
        offset + 1
    } else {
        n
    };
    (string_of_range(&cs, 0, offset), string_of_range(&cs, after, n))
}

/// How two integers compare.
pub open spec fn int_order(x: int, y: int) -> Ordering {
    if x < y {
        Ordering::Less
    } else if x == y {
        Ordering::Equal
    } else {
        Ordering::Greater
    }
}

/// How two texts compare in `String::cmp`, as -1, 0 or 1: by the first character
/// in which they differ, a proper prefix before the longer text. (UTF-8 keeps the
/// order of characters, so this is also the order of their bytes.)
pub open spec fn text_sign(a: Seq<char>, b: Seq<char>) -> int
    decreases a.len(),
{
    if a.len() == 0 {
        if b.len() == 0 {
            0
        } else {
            -1
        }
    } else if b.len() == 0 {
        1
    } else if a[0] < b[0] {
        -1
    } else if a[0] > b[0] {
        1
    } else {
        text_sign(a.drop_first(), b.drop_first())
    }
}

/// The order that a sign stands for.
pub open spec fn sign_order(s: int) -> Ordering {
    if s < 0 {
        Ordering::Less
    } else if s == 0 {
        Ordering::Equal
    } else {
        Ordering::Greater
    }
}

/// How two texts compare in `String::cmp` (see [`text_sign`]).
pub open spec fn text_order(a: Seq<char>, b: Seq<char>) -> Ordering {
    sign_order(text_sign(a, b))
}

/// The sign of the comparison of two texts (see [`text_sign`]).
fn text_compare_sign(a: &str, b: &str) -> (r: i8)
    ensures
        r == text_sign(a@, b@),
{
    let ac = chars_of(a);
    let bc = chars_of(b);
    let mut i: usize = 0;
    assert(a@.skip(0) =~= a@);
    assert(b@.skip(0) =~= b@);
    while i < ac.len() && i < bc.len() && ac[i] == bc[i]
        invariant
            i <= ac@.len(),
            i <= bc@.len(),
            ac@ == a@,
            bc@ == b@,
            text_sign(a@, b@) == text_sign(a@.skip(i as int), b@.skip(i as int)),
        decreases ac@.len() - i,
    {
        assert(a@.skip(i as int).drop_first() =~= a@.skip(i + 1));
        assert(b@.skip(i as int).drop_first() =~= b@.skip(i + 1));
        i = i + 1;
    }
    assert(a@.skip(i as int).len() > 0 ==> a@.skip(i as int)[0] == a@[i as int]);
    assert(b@.skip(i as int).len() > 0 ==> b@.skip(i as int)[0] == b@[i as int]);
    if i == ac.len() {
        if i == bc.len() {
            0
        } else {
            -1
        }
    } else if i == bc.len() {
        1
    } else if ac[i] < bc[i] {
        -1
    } else {
        1
    }
}

/// How two chunks of versions compare: as numbers when both read as `i32`,
/// else as texts.
pub open spec fn chunk_order(a: Seq<char>, b: Seq<char>) -> Ordering {
    match (parse_i32_spec(a), parse_i32_spec(b)) {
        (Some(x), Some(y)) => int_order(x, y),
        _ => text_order(a, b),
    }
}

pub proof fn lemma_utf8_len_nonneg(s: Seq<char>)
    ensures
        utf8_len(s) >= 0,
    decreases s.len(),
{
    if s.len() > 0 {
        lemma_utf8_len_nonneg(s.drop_last());
    }
}

/// What follows the leading chunk is shorter than a non-empty version.
pub proof fn lemma_leading_chunk_shorter(v: Seq<char>)
    ensures
        v.len() > 0 ==> leading_chunk(v).1.len() < v.len(),
        v.len() == 0 ==> leading_chunk(v).1.len() == 0,
{
    if v.len() > 0 {
        lemma_first_dot(v);
        lemma_utf8_len_nonneg(v.take(first_dot(v)));
    }
}

/// How two versions compare: chunk by chunk, the first chunks that differ decide.
pub open spec fn version_order(a: Seq<char>, b: Seq<char>) -> Ordering
    decreases a.len() + b.len(),
{
    if a.len() == 0 && b.len() == 0 {
        Ordering::Equal
    } else {
        proof {
            lemma_leading_chunk_shorter(a);
            lemma_leading_chunk_shorter(b);
        }
        let c = chunk_order(leading_chunk(a).0, leading_chunk(b).0);
        if c == Ordering::Equal {
            version_order(leading_chunk(a).1, leading_chunk(b).1)
        } else {
            c
        }
    }
}

/// Compares two texts as `String::cmp` does.
pub fn text_cmp(a: &str, b: &str) -> (r: Ordering)
    ensures
        r == text_order(a@, b@),
{
    let sign = text_compare_sign(a, b);
    if sign < 0 {
        Ordering::Less
    } else if sign == 0 {
        Ordering::Equal
    } else {
        Ordering::Greater
    }
}

/// Compares two chunks of versions: as numbers when both read as `i32`, else as texts.
pub fn try_cmp_as_ints(a: String, b: String) -> (r: Ordering)
    ensures
        r == chunk_order(a@, b@),
{
    let a_parsed = parse_i32(a.as_str());
    let b_parsed = parse_i32(b.as_str());
    match (a_parsed, b_parsed) {
        (Some(x), Some(y)) => {
            if x < y {
                Ordering::Less
            } else if x == y {
                Ordering::Equal
            } else {
                Ordering::Greater
            }
        },
        _ => text_cmp(a.as_str(), b.as_str()),
    }
}

/// Compares two versions chunk by chunk (see [`version_order`]).
pub fn comp_versions(a: String, b: String) -> (r: Ordering)
    ensures
        r == version_order(a@, b@),
    decreases a@.len() + b@.len(),
{
    if a.as_str().unicode_len() == 0 && b.as_str().unicode_len() == 0 {
        return Ordering::Equal;
    }
    let (a_lead, a_rest) = extract_leading_version_chunk(a.as_str());
    let (b_lead, b_rest) = extract_leading_version_chunk(b.as_str());
    proof {
        lemma_leading_chunk_shorter(a@);
        lemma_leading_chunk_shorter(b@);
    }
    let c = try_cmp_as_ints(a_lead, b_lead);
    match c {
        Ordering::Equal => comp_versions(a_rest, b_rest),
        _ => c,
    }
}

/// The reverse of an order.
pub open spec fn reversed(o: Ordering) -> Ordering {
    match o {
        Ordering::Less => Ordering::Greater,
        Ordering::Equal => Ordering::Equal,
        Ordering::Greater => Ordering::Less,
    }
}

/// Swapping two texts reverses their order.
pub proof fn lemma_text_order_antisymmetric(a: Seq<char>, b: Seq<char>)
    ensures
        text_sign(b, a) == -text_sign(a, b),
        text_order(b, a) == reversed(text_order(a, b)),
    decreases a.len(),
{
    if a.len() > 0 && b.len() > 0 && a[0] == b[0] {
        lemma_text_order_antisymmetric(a.drop_first(), b.drop_first());
    }
}

/// Texts are equal in the order exactly when they are equal.
pub proof fn lemma_text_order_equal(a: Seq<char>, b: Seq<char>)
    ensures
        (text_sign(a, b) == 0) == (a == b),
    decreases a.len(),
{
    if a.len() > 0 && b.len() > 0 && a[0] == b[0] {
        lemma_text_order_equal(a.drop_first(), b.drop_first());
        if a.drop_first() == b.drop_first() {
            assert(a =~= seq![a[0]] + a.drop_first());
            assert(b =~= seq![b[0]] + b.drop_first());
        }
        if a == b {
            assert(a.drop_first() == b.drop_first());
        }
    } else if a.len() > 0 && b.len() > 0 {
        if a == b {
            assert(a[0] == b[0]);
        }
    } else if a.len() == 0 && b.len() == 0 {
        assert(a =~= b);
    }
}

/// "Not after" is transitive in the text order.
pub proof fn lemma_text_order_transitive(a: Seq<char>, b: Seq<char>, c: Seq<char>)
    requires
        text_sign(a, b) <= 0,
        text_sign(b, c) <= 0,
    ensures
        text_sign(a, c) <= 0,
    decreases a.len(),
{
    if a.len() > 0 && b.len() > 0 && c.len() > 0 && a[0] == b[0] && b[0] == c[0] {
        lemma_text_order_transitive(a.drop_first(), b.drop_first(), c.drop_first());
    }
}

/// Swapping two chunks reverses their order.
proof fn lemma_chunk_order_antisymmetric(a: Seq<char>, b: Seq<char>)
    ensures
        chunk_order(b, a) == reversed(chunk_order(a, b)),
{
    lemma_text_order_antisymmetric(a, b);
}

/// Every version compares equal to itself: `comp_versions(a, a)` is `Equal`.
pub proof fn law_version_order_reflexive(a: Seq<char>)
    ensures
        version_order(a, a) == Ordering::Equal,
    decreases a.len(),
{
    if a.len() > 0 {
        lemma_leading_chunk_shorter(a);
        lemma_text_order_equal(leading_chunk(a).0, leading_chunk(a).0);
        law_version_order_reflexive(leading_chunk(a).1);
    }
}

/// Swapping two versions reverses their order: `comp_versions(b, a)` is the
/// reverse of `comp_versions(a, b)`.
pub proof fn law_version_order_antisymmetric(a: Seq<char>, b: Seq<char>)
    ensures
        version_order(b, a) == reversed(version_order(a, b)),
    decreases a.len() + b.len(),
{
    if !(a.len() == 0 && b.len() == 0) {
        lemma_leading_chunk_shorter(a);
        lemma_leading_chunk_shorter(b);
        lemma_chunk_order_antisymmetric(leading_chunk(a).0, leading_chunk(b).0);
        law_version_order_antisymmetric(leading_chunk(a).1, leading_chunk(b).1);
    }
}

/// One version of a candidate as the listing shows it.
pub struct SdkManCandidateVersion {
    pub version: String,
    pub identifier: String,
    pub installed: bool,
    pub local_only: bool,
    pub selected: bool,
}

/// The text that shows a flag: `label` when it is set, else nothing.
pub open spec fn flag_text(flag: bool, label: Seq<char>) -> Seq<char> {
    if flag {
        label
    } else {
        Seq::<char>::empty()
    }
}

impl SdkManCandidateVersion {
    /// How the version is shown: identifier, version, then which of installed,
    /// installed locally and selected hold.
    pub fn to_display_string(&self) -> (r: String)
        ensures
            r@ == "["@ + self.identifier@ + "] -> v"@ + self.version@ + " "@ + flag_text(
                self.installed,
                "installed"@,
            ) + " "@ + flag_text(self.local_only, "installed locally"@) + " "@ + flag_text(
                self.selected,
                "selected"@,
            ),
    {
        let mut r = String::from_str("[");
        r.append(self.identifier.as_str());
        r.append("] -> v");
        r.append(self.version.as_str());
        r.append(" ");
        if self.installed {
            r.append("installed");
        }
        r.append(" ");
        if self.local_only {
            r.append("installed locally");
        }
        r.append(" ");
        if self.selected {
            r.append("selected");
        }
        r
    }
}

/// The order of a listing: Java versions (`numeric`) chunk by chunk as in
/// [`comp_versions`], other candidates' versions as texts.
pub open spec fn listing_order(numeric: bool, a: Seq<char>, b: Seq<char>) -> Ordering {
    if numeric {
        version_order(a, b)
    } else {
        text_order(a, b)
    }
}

/// Version `a` comes strictly before version `b` in the listing order.
pub open spec fn listed_before(numeric: bool, a: Seq<char>, b: Seq<char>) -> bool {
    listing_order(numeric, a, b) == Ordering::Less
}

/// No entry comes strictly before its predecessor.
pub open spec fn adjacent_in_order(s: Seq<SdkManCandidateVersion>, numeric: bool) -> bool {
    forall|i: int, j: int|
        0 <= i && j == i + 1 && j < s.len() ==> !listed_before(
            numeric,
            (#[trigger] s[j]).version@,
            (#[trigger] s[i]).version@,
        )
}

/// No entry comes strictly before any entry ahead of it.
pub open spec fn in_order(s: Seq<SdkManCandidateVersion>, numeric: bool) -> bool {
    forall|i: int, j: int|
        0 <= i < j < s.len() ==> !listed_before(
            numeric,
            (#[trigger] s[j]).version@,
            (#[trigger] s[i]).version@,
        )
}

/// If `a` comes before `b`, `b` does not come before `a`.
pub proof fn lemma_listed_before_asymmetric(numeric: bool, a: Seq<char>, b: Seq<char>)
    ensures
        listed_before(numeric, a, b) ==> !listed_before(numeric, b, a),
{
    law_version_order_antisymmetric(a, b);
    lemma_text_order_antisymmetric(a, b);
}

/// Whether version `a` comes strictly before version `b` in the listing order.
fn is_listed_before(numeric: bool, a: &String, b: &String) -> (r: bool)
    ensures
        r == listed_before(numeric, a@, b@),
{
    let o = if numeric {
        comp_versions(a.clone(), b.clone())
    } else {
        text_cmp(a.as_str(), b.as_str())
    };
    match o {
        Ordering::Less => true,
        _ => false,
    }
}

/// Entries with version text `k`.
pub open spec fn same_version(k: Seq<char>) -> spec_fn(SdkManCandidateVersion) -> bool {
    |v: SdkManCandidateVersion| v.version@ == k
}

/// The listing order puts versions `a` and `b` level.
pub open spec fn level(numeric: bool, a: Seq<char>, b: Seq<char>) -> bool {
    listing_order(numeric, a, b) == Ordering::Equal
}

/// Entries whose version the listing order puts level with `k`.
pub open spec fn level_with(numeric: bool, k: Seq<char>) -> spec_fn(SdkManCandidateVersion) -> bool {
    |v: SdkManCandidateVersion| level(numeric, v.version@, k)
}

/// Comparing versions looks at the leading chunks and, when they are level, at
/// the rest (an empty version has two empty parts).
proof fn lemma_version_order_unfold(a: Seq<char>, b: Seq<char>)
    ensures
        version_order(a, b) == (if chunk_order(leading_chunk(a).0, leading_chunk(b).0)
            == Ordering::Equal {
            version_order(leading_chunk(a).1, leading_chunk(b).1)
        } else {
            chunk_order(leading_chunk(a).0, leading_chunk(b).0)
        }),
{
    if a.len() == 0 && b.len() == 0 {
        let e = Seq::<char>::empty();
        assert(leading_chunk(a) == (e, e));
        assert(leading_chunk(b) == (e, e));
        lemma_text_order_equal(e, e);
    }
}

/// Two chunks level with a third are level with each other.
proof fn lemma_chunk_level_trans(a: Seq<char>, b: Seq<char>, k: Seq<char>)
    requires
        chunk_order(a, k) == Ordering::Equal,
        chunk_order(b, k) == Ordering::Equal,
    ensures
        chunk_order(a, b) == Ordering::Equal,
{
    lemma_text_order_equal(a, k);
    lemma_text_order_equal(b, k);
    lemma_text_order_equal(a, b);
}

/// Two versions level with a third are level with each other.
proof fn lemma_version_level_trans(a: Seq<char>, b: Seq<char>, k: Seq<char>)
    requires
        version_order(a, k) == Ordering::Equal,
        version_order(b, k) == Ordering::Equal,
    ensures
        version_order(a, b) == Ordering::Equal,
    decreases a.len() + b.len() + k.len(),
{
    if !(a.len() == 0 && b.len() == 0) {
        lemma_leading_chunk_shorter(a);
        lemma_leading_chunk_shorter(b);
        lemma_leading_chunk_shorter(k);
        lemma_version_order_unfold(a, k);
        lemma_version_order_unfold(b, k);
        lemma_version_order_unfold(a, b);
        lemma_chunk_level_trans(leading_chunk(a).0, leading_chunk(b).0, leading_chunk(k).0);
        lemma_version_level_trans(leading_chunk(a).1, leading_chunk(b).1, leading_chunk(k).1);
    }
}

/// Two versions level with a third in the listing order are level with each other.
proof fn lemma_level_trans(numeric: bool, a: Seq<char>, b: Seq<char>, k: Seq<char>)
    requires
        level(numeric, a, k),
        level(numeric, b, k),
    ensures
        level(numeric, a, b),
{
    if numeric {
        lemma_version_level_trans(a, b, k);
    } else {
        lemma_text_order_equal(a, k);
        lemma_text_order_equal(b, k);
        lemma_text_order_equal(a, b);
    }
}

/// A version is never strictly before itself.
pub proof fn lemma_listed_before_irreflexive(numeric: bool, a: Seq<char>)
    ensures
        !listed_before(numeric, a, a),
{
    lemma_text_order_equal(a, a);
    law_version_order_antisymmetric(a, a);
}

/// Filtering a list none of whose entries passes gives nothing.
proof fn lemma_filter_none<A>(s: Seq<A>, f: spec_fn(A) -> bool)
    requires
        forall|j: int| 0 <= j < s.len() ==> !f(#[trigger] s[j]),
    ensures
        s.filter(f) == Seq::<A>::empty(),
    decreases s.len(),
{
    reveal(Seq::filter);
    if s.len() > 0 {
        let init = s.drop_last();
        assert forall|j: int| 0 <= j < init.len() implies !f(#[trigger] init[j]) by {
            assert(init[j] == s[j]);
        }
        lemma_filter_none(init, f);
        assert(!f(s[s.len() - 1]));
    }
}

/// Filtering after an insertion: an entry that fails adds nothing; one inserted
/// after every passing entry comes last.
proof fn lemma_filter_insert<A>(s: Seq<A>, p: int, x: A, f: spec_fn(A) -> bool)
    requires
        0 <= p <= s.len(),
    ensures
        !f(x) ==> s.insert(p, x).filter(f) == s.filter(f),
        (forall|j: int| p <= j < s.len() ==> !f(#[trigger] s[j])) ==> s.insert(p, x).filter(f) == (
        if f(x) {
            s.filter(f).push(x)
        } else {
            s.filter(f)
        }),
{
    let a = s.take(p);
    let b = s.skip(p);
    assert(s.insert(p, x) =~= a + seq![x] + b);
    assert(s =~= a + b);
    Seq::<A>::filter_distributes_over_add(a + seq![x], b, f);
    Seq::<A>::filter_distributes_over_add(a, seq![x], f);
    Seq::<A>::filter_distributes_over_add(a, b, f);
    Seq::<A>::empty().lemma_filter_push(x, f);
    assert(Seq::<A>::empty().push(x) =~= seq![x]);
    reveal(Seq::filter);
    assert(Seq::<A>::empty().filter(f) =~= Seq::<A>::empty());
    if !f(x) {
        assert(a.filter(f) + Seq::<A>::empty() =~= a.filter(f));
    }
    if forall|j: int| p <= j < s.len() ==> !f(#[trigger] s[j]) {
        assert forall|j: int| 0 <= j < b.len() implies !f(#[trigger] b[j]) by {
            assert(b[j] == s[p + j]);
        }
        lemma_filter_none(b, f);
        assert(a.filter(f) + Seq::<A>::empty() =~= a.filter(f));
        if f(x) {
            assert(a.filter(f) + seq![x] =~= a.filter(f).push(x));
            assert(a.filter(f).push(x) + Seq::<A>::empty() =~= a.filter(f).push(x));
        }
    }
}

/// Orders a listing, as `sort_by` with the listing order does: the same
/// entries, none before its predecessor, and for texts fully in order.
pub fn sort_versions(versions: Vec<SdkManCandidateVersion>, numeric: bool) -> (r: Vec<
    SdkManCandidateVersion,
>)
    ensures
        r@.to_multiset() == versions@.to_multiset(),
        adjacent_in_order(r@, numeric),
        !numeric ==> in_order(r@, numeric),
        forall|k: Seq<char>| #[trigger] r@.filter(same_version(k)) == versions@.filter(same_version(k)),
        forall|k: Seq<char>|
            #[trigger] r@.filter(level_with(numeric, k)) == versions@.filter(level_with(numeric, k)),
{
    broadcast use vstd::seq_lib::group_to_multiset_ensures;
    broadcast use vstd::multiset::group_multiset_properties;

    let ghost all = versions@;
    let ghost mut done: int = 0;
    let mut rest = versions;
    let mut r: Vec<SdkManCandidateVersion> = Vec::new();
    assert forall|k: Seq<char>| #[trigger] r@.filter(same_version(k)) == all.take(0).filter(
        same_version(k),
    ) by {
        reveal(Seq::filter);
        assert(all.take(0) =~= Seq::<SdkManCandidateVersion>::empty());
    }
    assert forall|k: Seq<char>| #[trigger] r@.filter(level_with(numeric, k)) == all.take(0).filter(
        level_with(numeric, k),
    ) by {
        reveal(Seq::filter);
        assert(all.take(0) =~= Seq::<SdkManCandidateVersion>::empty());
    }
    while rest.len() > 0
        invariant
            0 <= done <= all.len(),
            rest@ == all.skip(done),
            forall|k: Seq<char>| #[trigger] r@.filter(same_version(k)) == all.take(done).filter(same_version(k)),
            forall|k: Seq<char>|
                #[trigger] r@.filter(level_with(numeric, k)) == all.take(done).filter(
                    level_with(numeric, k),
                ),
            r@.to_multiset().add(rest@.to_multiset()) == versions@.to_multiset(),
            adjacent_in_order(r@, numeric),
            !numeric ==> in_order(r@, numeric),
        decreases rest@.len(),
    {
        let ghost rest0 = rest@;
        let ghost r0 = r@;
        let x = rest.remove(0);
        proof {
            assert(rest0.remove(0) =~= rest@);
            assert(rest0[0] == x);
            assert(rest0.contains(x));
            rest0.to_multiset_ensures();
            assert(rest0.to_multiset().count(x) > 0);
            assert(rest0.to_multiset() =~= rest@.to_multiset().insert(x));
        }
        let mut p = r.len();
        while p > 0 && is_listed_before(numeric, &x.version, &r[p - 1].version)
            invariant
                p <= r@.len(),
                r@ == r0,
                forall|k: int| p <= k < r@.len() ==> listed_before(
                    numeric,
                    x.version@,
                    (#[trigger] r@[k]).version@,
                ),
            decreases p,
        {
            p = p - 1;
        }
        proof {
            if p < r0.len() {
                lemma_listed_before_asymmetric(numeric, x.version@, r0[p as int].version@);
            }
        }
        r.insert(p, x);
        proof {
            let r1 = r@;
            assert(x == all[done]);
            assert(all.take(done + 1) =~= all.take(done).push(x));
            assert(all.skip(done + 1) =~= rest@);
            assert(r1 =~= r0.insert(p as int, x));
            assert forall|k: Seq<char>| #[trigger] r1.filter(same_version(k)) == all.take(done + 1).filter(
                same_version(k),
            ) by {
                let f = same_version(k);
                all.take(done).lemma_filter_push(x, f);
                lemma_filter_insert(r0, p as int, x, f);
                if f(x) {
                    assert forall|j: int| p <= j < r0.len() implies !f(#[trigger] r0[j]) by {
                        lemma_listed_before_irreflexive(numeric, x.version@);
                        assert(listed_before(numeric, x.version@, r0[j].version@));
                    }
                }
            }
            assert forall|k: Seq<char>| #[trigger] r1.filter(level_with(numeric, k)) == all.take(
                done + 1,
            ).filter(level_with(numeric, k)) by {
                let f = level_with(numeric, k);
                all.take(done).lemma_filter_push(x, f);
                lemma_filter_insert(r0, p as int, x, f);
                if f(x) {
                    assert forall|j: int| p <= j < r0.len() implies !f(#[trigger] r0[j]) by {
                        assert(listed_before(numeric, x.version@, r0[j].version@));
                        if f(r0[j]) {
                            lemma_level_trans(numeric, x.version@, r0[j].version@, k);
                        }
                    }
                }
            }
            done = done + 1;
            assert(r1.remove(p as int) =~= r0);
            assert(r1[p as int] == x);
            assert(r1.contains(x));
            r1.to_multiset_ensures();
            assert(r1.to_multiset().count(x) > 0);
            assert(r1.to_multiset() =~= r0.to_multiset().insert(x));
            assert(adjacent_in_order(r1, numeric)) by {
                assert forall|i: int, j: int|
                    0 <= i && j == i + 1 && j < r1.len() implies !listed_before(
                    numeric,
                    (#[trigger] r1[j]).version@,
                    (#[trigger] r1[i]).version@,
                ) by {
                    if j < p {
                        assert(r1[i] == r0[i] && r1[j] == r0[j]);
                    } else if j == p {
                        assert(r1[i] == r0[i]);
                    } else if i == p {
                        assert(r1[j] == r0[i]);
                        lemma_listed_before_asymmetric(numeric, x.version@, r0[i].version@);
                    } else {
                        assert(r1[i] == r0[i - 1] && r1[j] == r0[j - 1]);
                    }
                }
            }
            if !numeric {
                assert forall|i: int, j: int| 0 <= i < j < r1.len() implies !listed_before(
                    numeric,
                    (#[trigger] r1[j]).version@,
                    (#[trigger] r1[i]).version@,
                ) by {
                    if j < p {
                        assert(r1[i] == r0[i] && r1[j] == r0[j]);
                    } else if j == p {
                        assert(r1[i] == r0[i]);
                        let last = r0[p - 1];
                        assert(!listed_before(numeric, x.version@, last.version@));
                        if i < p - 1 {
                            assert(!listed_before(numeric, last.version@, r0[i].version@));
                            lemma_text_order_antisymmetric(x.version@, last.version@);
                            lemma_text_order_antisymmetric(last.version@, r0[i].version@);
                            lemma_text_order_antisymmetric(x.version@, r0[i].version@);
                            lemma_text_order_transitive(r0[i].version@, last.version@, x.version@);
                        }
                    } else if i == p {
                        assert(r1[j] == r0[j - 1]);
                        lemma_listed_before_asymmetric(numeric, x.version@, r0[j - 1].version@);
                    } else if i > p {
                        assert(r1[i] == r0[i - 1] && r1[j] == r0[j - 1]);
                    } else {
                        assert(r1[i] == r0[i] && r1[j] == r0[j - 1]);
                    }
                }
            }
        }
    }
    proof {
        assert(rest@.to_multiset() =~= vstd::multiset::Multiset::empty());
        assert(all.take(done) =~= all);
    }
    r
}

} // verus!
