//! Regular-expression matches, as the `regex` crate finds them.
use vstd::prelude::*;
use crate::text::str_eq;

verus! {

/// What the `regex` crate finds when `pattern` is searched in `text`: the names
/// of the capture groups (by group number; group 0 is the whole match), and for
/// each successive non-overlapping match the text of each group (`None` for a
/// group that took no part). `None` when `pattern` is no valid regex.
pub uninterp spec fn regex_matches(pattern: Seq<char>, text: Seq<char>) -> Option<
    (Seq<Option<Seq<char>>>, Seq<Seq<Option<Seq<char>>>>),
>;

/// The group names and the matches of a search.
pub struct RegexMatches {
    pub group_names: Vec<Option<String>>,
    pub matches: Vec<Vec<Option<String>>>,
}

/// Trusted: `regex::Regex::new(pattern)` followed by `captures_names` and
/// `captures_iter(text)`; the result is the value named [`regex_matches`] (a
/// function of the pattern and the text alone). How the crate matches is not
/// restated here.
#[verifier::external_body]
pub(crate) fn find_matches(pattern: &str, text: &str) -> (r: Option<RegexMatches>)
    ensures
        match r {
            Some(m) => regex_matches(pattern@, text@) == Some(
                (m.group_names.deep_view(), m.matches.deep_view()),
            ),
            None => regex_matches(pattern@, text@) is None,
        },
{
    let re = regex::Regex::new(pattern).ok()?;
    let group_names = re.capture_names().map(|n| n.map(|n| n.to_string())).collect();
    let matches = re.captures_iter(text).map(
        |c| c.iter().map(|g| g.map(|g| g.as_str().to_string())).collect(),
    ).collect();
    Some(RegexMatches { group_names, matches })
}

/// The number of the first group called `name`, or -1.
pub open spec fn group_number(names: Seq<Option<Seq<char>>>, name: Seq<char>) -> int
    decreases names.len(),
{
    if names.len() == 0 {
        -1
    } else {
        let r = group_number(names.drop_last(), name);
        if r >= 0 {
            r
        } else if names.last() == Some(name) {
            names.len() - 1
        } else {
            -1
        }
    }
}

/// The text of the group called `name` in one match (what `Captures::name` gives).
pub open spec fn named_group(
    names: Seq<Option<Seq<char>>>,
    m: Seq<Option<Seq<char>>>,
    name: Seq<char>,
) -> Option<Seq<char>> {
    let i = group_number(names, name);
    if 0 <= i < m.len() {
        m[i]
    } else {
        None
    }
}

proof fn lemma_group_number(names: Seq<Option<Seq<char>>>, name: Seq<char>, i: int)
    requires
        0 <= i <= names.len(),
        forall|j: int| 0 <= j < i ==> (#[trigger] names[j]) != Some(name),
        i < names.len() ==> names[i] == Some(name),
    ensures
        group_number(names, name) == (if i < names.len() {
            i
        } else {
            -1
        }),
    decreases names.len(),
{
    if names.len() > 0 {
        let init = names.drop_last();
        if i < names.len() - 1 {
            assert forall|j: int| 0 <= j < i implies (#[trigger] init[j]) != Some(name) by {
                assert(init[j] == names[j]);
            }
            assert(init[i] == names[i]);
            lemma_group_number(init, name, i);
        } else {
            assert forall|j: int| 0 <= j < init.len() implies (#[trigger] init[j]) != Some(name) by {
                assert(init[j] == names[j]);
            }
            lemma_group_number(init, name, init.len() as int);
            if i == names.len() {
                assert(names[names.len() - 1] != Some(name));
            }
        }
    }
}

/// The number of the first group called `name`, if any.
pub fn find_group(names: &Vec<Option<String>>, name: &str) -> (r: Option<usize>)
    ensures
        match r {
            Some(i) => group_number(names.deep_view(), name@) == i as int && i < names@.len(),
            None => group_number(names.deep_view(), name@) == -1,
        },
{
    let ghost dv = names.deep_view();
    let mut i: usize = 0;
    while i < names.len()
        invariant
            i <= names@.len(),
            dv == names.deep_view(),
            dv.len() == names@.len(),
            forall|j: int| 0 <= j < i ==> (#[trigger] dv[j]) != Some(name@),
        decreases names@.len() - i,
    {
        let found = match &names[i] {
            Some(n) => str_eq(n.as_str(), name),
            None => false,
        };
        assert(dv[i as int] == names@[i as int].deep_view());
        if found {
            proof {
                lemma_group_number(dv, name@, i as int);
            }
            return Some(i);
        }
        i = i + 1;
    }
    proof {
        lemma_group_number(dv, name@, i as int);
    }
    None
}

/// The text of the group called `name` in one match.
pub fn group_text(names: &Vec<Option<String>>, m: &Vec<Option<String>>, name: &str) -> (r: Option<
    String,
>)
    ensures
        r.deep_view() == named_group(names.deep_view(), m.deep_view(), name@),
{
    match find_group(names, name) {
        Some(i) => {
            if i < m.len() {
                assert(m.deep_view()[i as int] == m@[i as int].deep_view());
                match &m[i] {
                    Some(t) => Some(t.clone()),
                    None => None,
                }
            } else {
                None
            }
        },
        None => None,
    }
}

} // verus!
