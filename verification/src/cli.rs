//! Decisions of the command-line commands that need no I/O.
use vstd::prelude::*;
use crate::sdkman_api::SdkManCandidate;
use crate::text::{split_on, split_str, str_eq, views};
use crate::versions::SdkManCandidateVersion;

verus! {

/// The command line that an interactive input line stands for: the program
/// name `cmd` and the words between single spaces; `None` when the first word is `exit`.
pub open spec fn interactive_spec(line: Seq<char>) -> Option<Seq<Seq<char>>> {
    let args = split_on(line, ' ');
    if args[0] == "exit"@ {
        None
    } else {
        Some(seq!["cmd"@] + args)
    }
}

/// The command line that an interactive input line stands for (see [`interactive_spec`]).
pub fn interactive_command(line: &str) -> (r: Option<Vec<String>>)
    ensures
        match r {
            Some(v) => interactive_spec(line@) == Some(views(v@)),
            None => interactive_spec(line@) is None,
        },
{
    let args = split_str(line, ' ');
    proof {
        crate::text::lemma_split_nonempty(line@, ' ');
        assert(views(args@)[0] == args@[0]@);
    }
    if str_eq(args[0].as_str(), "exit") {
        return None;
    }
    let mut call: Vec<String> = Vec::new();
    call.push(String::from_str("cmd"));
    let mut i: usize = 0;
    while i < args.len()
        invariant
            i <= args@.len(),
            views(call@) == seq!["cmd"@] + views(args@).take(i as int),
        decreases args@.len() - i,
    {
        let ghost c0 = call@;
        call.push(args[i].clone());
        i = i + 1;
        assert(views(call@) =~= views(c0).push(args@[i - 1]@));
        assert(views(args@).take(i as int) =~= views(args@).take(i - 1).push(args@[i - 1]@));
    }
    assert(views(args@).take(i as int) =~= views(args@));
    Some(call)
}

/// Versions that are installed, installed locally, or selected.
pub open spec fn is_mine() -> spec_fn(SdkManCandidateVersion) -> bool {
    |v: SdkManCandidateVersion| v.installed || v.local_only || v.selected
}

/// Keeps the versions that are installed, installed locally, or selected, in order.
pub fn filter_mine(versions: Vec<SdkManCandidateVersion>) -> (r: Vec<SdkManCandidateVersion>)
    ensures
        r@ == versions@.filter(is_mine()),
{
    let mut rest = versions;
    let mut r: Vec<SdkManCandidateVersion> = Vec::new();
    let ghost all = versions@;
    let ghost mut done: int = 0;
    while rest.len() > 0
        invariant
            0 <= done <= all.len(),
            rest@ == all.skip(done),
            r@ == all.take(done).filter(is_mine()),
        decreases rest@.len(),
    {
        let v = rest.remove(0);
        proof {
            assert(v == all[done]);
            assert(all.take(done + 1) =~= all.take(done).push(v));
            all.take(done).lemma_filter_push(v, is_mine());
            assert(all.skip(done + 1) =~= all.skip(done).remove(0));
        }
        if v.installed || v.local_only || v.selected {
            r.push(v);
        }
        proof {
            done = done + 1;
        }
    }
    assert(all.take(done) =~= all);
    r
}

/// `--mine` keeps exactly the versions that are installed, installed locally or
/// selected, in any combination: a version is in the result when it is in the
/// list and at least one of the three holds, and only then.
pub proof fn law_mine_keeps_marked_versions(versions: Seq<SdkManCandidateVersion>)
    ensures
        forall|v: SdkManCandidateVersion|
            #[trigger] versions.filter(is_mine()).contains(v) <==> versions.contains(v) && (
            v.installed || v.local_only || v.selected),
{
    assert forall|v: SdkManCandidateVersion|
        #[trigger] versions.filter(is_mine()).contains(v) <==> versions.contains(v) && (v.installed
            || v.local_only || v.selected) by {
        if versions.filter(is_mine()).contains(v) {
            versions.lemma_filter_contains_rev(is_mine(), v);
            let k = choose|k: int| 0 <= k < versions.filter(is_mine()).len() && versions.filter(
                is_mine(),
            )[k] == v;
            versions.lemma_filter_pred(is_mine(), k);
        }
        if versions.contains(v) && (v.installed || v.local_only || v.selected) {
            let k = choose|k: int| 0 <= k < versions.len() && versions[k] == v;
            versions.lemma_filter_contains(is_mine(), k);
        }
    }
}

/// The first candidate called `name`, if any.
pub fn find_candidate(candidates: &Vec<SdkManCandidate>, name: &str) -> (r: Option<usize>)
    ensures
        match r {
            Some(i) => i < candidates@.len() && candidates@[i as int].candidate_name@ == name@
                && forall|k: int| 0 <= k < i ==> (#[trigger] candidates@[k]).candidate_name@ != name@,
            None => forall|k: int|
                0 <= k < candidates@.len() ==> (#[trigger] candidates@[k]).candidate_name@ != name@,
        },
{
    let mut i: usize = 0;
    while i < candidates.len()
        invariant
            i <= candidates@.len(),
            forall|k: int| 0 <= k < i ==> (#[trigger] candidates@[k]).candidate_name@ != name@,
        decreases candidates@.len() - i,
    {
        if str_eq(candidates[i].candidate_name.as_str(), name) {
            return Some(i);
        }
        i = i + 1;
    }
    None
}

} // verus!
