//! Planning which artifact files a run writes for one target package.
//!
//! The plan is computed line by line, in file order, with 1-based line
//! numbers. A comment line contributes nothing; an entry line contributes
//! an artifact exactly when its owner equals the target package; the first
//! malformed line stops the run with its line number, keeping the
//! artifacts planned from the lines before it (there is no rollback).
//!
//! The effect of carrying a plan out on a directory is modelled by
//! [`apply_plan`]: each artifact in order overwrites the file named by its
//! key with its value.

use vstd::prelude::*;
use crate::bytes::{bytes_eq, views};
use crate::lines::split_lines;
use crate::parse::{ParsedLine, parse_line, line_well_formed, is_entry_line, entry_owner,
    entry_key, entry_value};

verus! {

/// One artifact file to write: the file is named by `key` and holds
/// exactly the bytes of `value`.
pub struct Artifact {
    pub key: Vec<u8>,
    pub value: Vec<u8>,
}

/// A malformed non-comment line, identified by its 1-based line number.
pub struct ParseError {
    pub line: usize,
}

/// The outcome of a run over one configuration file: the artifacts to
/// write, in file order, and the parse failure that stopped the run, if
/// any. The artifacts planned before a failure are still to be written.
pub struct Plan {
    pub artifacts: Vec<Artifact>,
    pub failure: Option<ParseError>,
}

/// The (key, value) pairs of a sequence of artifacts.
pub open spec fn artifacts_view(arts: Seq<Artifact>) -> Seq<(Seq<u8>, Seq<u8>)> {
    arts.map_values(|a: Artifact| (a.key@, a.value@))
}

/// What one line adds to the plan: one artifact when it is an entry owned
/// by `pkg`, nothing otherwise.
pub open spec fn line_contribution(l: Seq<u8>, pkg: Seq<u8>) -> Seq<(Seq<u8>, Seq<u8>)> {
    if is_entry_line(l) && entry_owner(l) == pkg {
        seq![(entry_key(l), entry_value(l))]
    } else {
        seq![]
    }
}

/// The artifacts contributed by `ls`, in file order.
pub open spec fn planned_artifacts(ls: Seq<Seq<u8>>, pkg: Seq<u8>) -> Seq<(Seq<u8>, Seq<u8>)>
    decreases ls.len(),
{
    if ls.len() == 0 {
        seq![]
    } else {
        planned_artifacts(ls.drop_last(), pkg) + line_contribution(ls.last(), pkg)
    }
}

/// Index of the first line that is neither a comment nor a well-delimited
/// entry; `ls.len()` when every line parses.
pub open spec fn first_malformed(ls: Seq<Seq<u8>>) -> int
    decreases ls.len(),
{
    if ls.len() == 0 {
        0
    } else if !line_well_formed(ls[0]) {
        0
    } else {
        1 + first_malformed(ls.skip(1))
    }
}

/// `first_malformed` is the least index of a malformed line, and it is
/// `ls.len()` exactly when every line is well formed.
pub proof fn lemma_first_malformed(ls: Seq<Seq<u8>>)
    ensures
        0 <= first_malformed(ls) <= ls.len(),
        forall|j: int| 0 <= j < first_malformed(ls) ==> line_well_formed(ls[j]),
        first_malformed(ls) < ls.len() ==> !line_well_formed(ls[first_malformed(ls)]),
    decreases ls.len(),
{
    if ls.len() == 0 {
    } else if !line_well_formed(ls[0]) {
    } else {
        lemma_first_malformed(ls.skip(1));
        assert forall|j: int| 0 <= j < first_malformed(ls) implies line_well_formed(ls[j]) by {
            if j > 0 {
                assert(ls.skip(1)[j - 1] == ls[j]);
            }
        }
        if first_malformed(ls) < ls.len() {
            assert(ls.skip(1)[first_malformed(ls) - 1] == ls[first_malformed(ls)]);
        }
    }
}

/// Any index that is the least one holding a malformed line (or the
/// length, when every line is well formed) equals `first_malformed`. In
/// particular, a malformed line at index `i` preceded only by well-formed
/// lines makes the run fail with 1-based line number `i + 1`, with no
/// artifact planned from it or from any later line.
pub proof fn lemma_first_malformed_unique(ls: Seq<Seq<u8>>, i: int)
    requires
        0 <= i <= ls.len(),
        forall|j: int| 0 <= j < i ==> line_well_formed(ls[j]),
        i < ls.len() ==> !line_well_formed(ls[i]),
    ensures
        first_malformed(ls) == i,
{
    lemma_first_malformed(ls);
    let f = first_malformed(ls);
    if f < i {
        assert(line_well_formed(ls[f]));
        assert(!line_well_formed(ls[f]));
    }
    if i < f {
        assert(line_well_formed(ls[i]));
    }
}

/// Builds the plan for `pkg` from the file's lines: the artifacts of every
/// owned entry line before the first malformed line, in file order, and
/// the 1-based number of the first malformed line when there is one.
pub fn plan_artifacts(ls: &Vec<Vec<u8>>, pkg: &[u8]) -> (r: Plan)
    ensures
        r.failure is None <==> first_malformed(views(ls@)) == ls@.len(),
        (match r.failure {
            Some(e) => e.line == first_malformed(views(ls@)) + 1,
            None => true,
        }),
        artifacts_view(r.artifacts@) == planned_artifacts(
            views(ls@).take(first_malformed(views(ls@))),
            pkg@,
        ),
{
    let ghost lv = views(ls@);
    let mut artifacts: Vec<Artifact> = Vec::new();
    let mut i: usize = 0;
    proof {
        assert(artifacts_view(artifacts@) =~= planned_artifacts(lv.take(0), pkg@));
    }
    while i < ls.len()
        invariant
            i <= ls@.len(),
            lv == views(ls@),
            forall|j: int| 0 <= j < i ==> line_well_formed(lv[j]),
            artifacts_view(artifacts@) == planned_artifacts(lv.take(i as int), pkg@),
        decreases ls@.len() - i,
    {
        let ghost prev = artifacts@;
        match parse_line(ls[i].as_slice()) {
            None => {
                proof {
                    lemma_first_malformed_unique(lv, i as int);
                }
                return Plan { artifacts, failure: Some(ParseError { line: i + 1 }) };
            },
            Some(ParsedLine::Comment) => {},
            Some(ParsedLine::Entry(e)) => {
                if bytes_eq(e.owner.as_slice(), pkg) {
                    artifacts.push(Artifact { key: e.key, value: e.value });
                }
            },
        }
        proof {
            assert(lv.take(i + 1).drop_last() =~= lv.take(i as int));
            assert(lv.take(i + 1).last() == lv[i as int]);
            assert(planned_artifacts(lv.take(i + 1), pkg@) == planned_artifacts(
                lv.take(i as int),
                pkg@,
            ) + line_contribution(lv[i as int], pkg@));
            assert(artifacts_view(artifacts@) =~= artifacts_view(prev) + line_contribution(
                lv[i as int],
                pkg@,
            ));
        }
        i = i + 1;
    }
    proof {
        lemma_first_malformed_unique(lv, lv.len() as int);
        assert(lv.take(lv.len() as int) =~= lv);
    }
    Plan { artifacts, failure: None }
}

/// Splits the configuration file's bytes into lines and builds the plan
/// for `pkg`, as [`plan_artifacts`] describes over [`split_lines`].
pub fn materialize(contents: &[u8], pkg: &[u8]) -> (r: Plan)
    ensures
        r.failure is None <==> first_malformed(split_lines(contents@)) == split_lines(
            contents@,
        ).len(),
        (match r.failure {
            Some(e) => e.line == first_malformed(split_lines(contents@)) + 1,
            None => true,
        }),
        artifacts_view(r.artifacts@) == planned_artifacts(
            split_lines(contents@).take(first_malformed(split_lines(contents@))),
            pkg@,
        ),
{
    let ls = crate::lines::split_into_lines(contents);
    plan_artifacts(&ls, pkg)
}

/// The directory's state, as a map from artifact file name to contents,
/// after the plan's artifacts are written in order: each one overwrites
/// the file named by its key.
pub open spec fn apply_plan(dir: Map<Seq<u8>, Seq<u8>>, arts: Seq<(Seq<u8>, Seq<u8>)>) -> Map<
    Seq<u8>,
    Seq<u8>,
>
    decreases arts.len(),
{
    if arts.len() == 0 {
        dir
    } else {
        apply_plan(dir, arts.drop_last()).insert(arts.last().0, arts.last().1)
    }
}

/// The value of the last artifact named `k` in the plan, if any: the one
/// whose bytes the file holds once every write is done.
pub open spec fn last_planned_value(arts: Seq<(Seq<u8>, Seq<u8>)>, k: Seq<u8>) -> Option<Seq<u8>>
    decreases arts.len(),
{
    if arts.len() == 0 {
        None
    } else if arts.last().0 == k {
        Some(arts.last().1)
    } else {
        last_planned_value(arts.drop_last(), k)
    }
}

/// After the plan is carried out, the file named `k` holds the last value
/// planned for `k`; a file the plan never names is untouched.
pub proof fn lemma_apply_plan_at(dir: Map<Seq<u8>, Seq<u8>>, arts: Seq<(Seq<u8>, Seq<u8>)>,
    k: Seq<u8>)
    ensures
        (match last_planned_value(arts, k) {
            Some(v) => apply_plan(dir, arts).dom().contains(k) && apply_plan(dir, arts)[k] == v,
            None => {
                &&& apply_plan(dir, arts).dom().contains(k) == dir.dom().contains(k)
                &&& (dir.dom().contains(k) ==> apply_plan(dir, arts)[k] == dir[k])
            },
        }),
    decreases arts.len(),
{
    if arts.len() == 0 {
    } else {
        lemma_apply_plan_at(dir, arts.drop_last(), k);
    }
}

/// Comment lines are inert: whatever follows the marker, a comment line
/// is never a parse failure and contributes no artifact to any package's
/// plan.
pub proof fn lemma_comment_line_inert(l: Seq<u8>, pkg: Seq<u8>)
    requires
        crate::parse::is_comment_line(l),
    ensures
        line_well_formed(l),
        line_contribution(l, pkg) == Seq::<(Seq<u8>, Seq<u8>)>::empty(),
{
    assert(line_contribution(l, pkg) =~= Seq::<(Seq<u8>, Seq<u8>)>::empty());
}

/// Every entry line owned by the target package puts its (key, value)
/// pair into the plan.
pub proof fn lemma_owned_entry_planned(ls: Seq<Seq<u8>>, pkg: Seq<u8>, i: int)
    requires
        0 <= i < ls.len(),
        is_entry_line(ls[i]),
        entry_owner(ls[i]) == pkg,
    ensures
        planned_artifacts(ls, pkg).contains((entry_key(ls[i]), entry_value(ls[i]))),
    decreases ls.len(),
{
    let pair = (entry_key(ls[i]), entry_value(ls[i]));
    let prefix = planned_artifacts(ls.drop_last(), pkg);
    if i == ls.len() - 1 {
        assert(planned_artifacts(ls, pkg)[prefix.len() as int] == pair);
    } else {
        assert(ls.drop_last()[i] == ls[i]);
        lemma_owned_entry_planned(ls.drop_last(), pkg, i);
        let idx = choose|idx: int| 0 <= idx < prefix.len() && prefix[idx] == pair;
        assert(planned_artifacts(ls, pkg)[idx] == pair);
    }
}

/// Every pair in the plan comes from some entry line owned by the target
/// package, with exactly that key and value: entries owned by other
/// packages, comments and malformed text contribute nothing.
pub proof fn lemma_planned_artifact_has_owned_source(ls: Seq<Seq<u8>>, pkg: Seq<u8>, k: Seq<u8>,
    v: Seq<u8>)
    requires
        planned_artifacts(ls, pkg).contains((k, v)),
    ensures
        exists|i: int|
            {
                &&& 0 <= i < ls.len()
                &&& is_entry_line(ls[i])
                &&& entry_owner(ls[i]) == pkg
                &&& entry_key(ls[i]) == k
                &&& entry_value(ls[i]) == v
            },
    decreases ls.len(),
{
    let arts = planned_artifacts(ls, pkg);
    let prefix = planned_artifacts(ls.drop_last(), pkg);
    let idx = choose|idx: int| 0 <= idx < arts.len() && arts[idx] == (k, v);
    if idx < prefix.len() {
        assert(prefix[idx] == (k, v));
        lemma_planned_artifact_has_owned_source(ls.drop_last(), pkg, k, v);
        let i = choose|i: int|
            {
                &&& 0 <= i < ls.drop_last().len()
                &&& is_entry_line(ls.drop_last()[i])
                &&& entry_owner(ls.drop_last()[i]) == pkg
                &&& entry_key(ls.drop_last()[i]) == k
                &&& entry_value(ls.drop_last()[i]) == v
            };
        assert(ls.drop_last()[i] == ls[i]);
    } else {
        let last = ls.last();
        assert(is_entry_line(last) && entry_owner(last) == pkg);
        assert(arts[idx] == line_contribution(last, pkg)[idx - prefix.len()]);
        assert(entry_key(last) == k && entry_value(last) == v);
        assert(ls[ls.len() - 1] == last);
    }
}

/// A planned last value for `k` appears in the plan.
proof fn lemma_last_planned_value_in(arts: Seq<(Seq<u8>, Seq<u8>)>, k: Seq<u8>, v: Seq<u8>)
    requires
        last_planned_value(arts, k) == Some(v),
    ensures
        arts.contains((k, v)),
    decreases arts.len(),
{
    if arts.len() == 0 {
    } else if arts.last().0 == k {
        assert(arts[arts.len() - 1] == (k, v));
    } else {
        lemma_last_planned_value_in(arts.drop_last(), k, v);
        let idx = choose|idx: int|
            0 <= idx < arts.drop_last().len() && arts.drop_last()[idx] == (k, v);
        assert(arts[idx] == (k, v));
    }
}

/// A file whose name no entry line owned by the target package carries as
/// its key is left exactly as it was: entries owned by other packages
/// create no artifact.
pub proof fn lemma_foreign_key_untouched(dir: Map<Seq<u8>, Seq<u8>>, ls: Seq<Seq<u8>>,
    pkg: Seq<u8>, k: Seq<u8>)
    requires
        forall|i: int|
            0 <= i < ls.len() && is_entry_line(ls[i]) && entry_owner(ls[i]) == pkg
                ==> entry_key(ls[i]) != k,
    ensures
        apply_plan(dir, planned_artifacts(ls, pkg)).dom().contains(k) == dir.dom().contains(k),
        dir.dom().contains(k) ==> apply_plan(dir, planned_artifacts(ls, pkg))[k] == dir[k],
{
    let arts = planned_artifacts(ls, pkg);
    if last_planned_value(arts, k) is Some {
        let v = last_planned_value(arts, k)->Some_0;
        lemma_last_planned_value_in(arts, k, v);
        lemma_planned_artifact_has_owned_source(ls, pkg, k, v);
    }
    lemma_apply_plan_at(dir, arts, k);
}

/// Carrying the same plan out twice leaves the directory exactly as
/// carrying it out once does: every overwrite repeats the value the first
/// pass wrote.
pub proof fn lemma_apply_plan_idempotent(dir: Map<Seq<u8>, Seq<u8>>, arts: Seq<(Seq<u8>, Seq<u8>)>)
    ensures
        apply_plan(apply_plan(dir, arts), arts) == apply_plan(dir, arts),
{
    let once = apply_plan(dir, arts);
    let twice = apply_plan(once, arts);
    assert forall|k: Seq<u8>| #[trigger] twice.dom().contains(k) implies once.dom().contains(
        k,
    ) by {
        lemma_apply_plan_at(dir, arts, k);
        lemma_apply_plan_at(once, arts, k);
    }
    assert forall|k: Seq<u8>| #[trigger] once.dom().contains(k) implies twice.dom().contains(k)
        && twice[k] == once[k] by {
        lemma_apply_plan_at(dir, arts, k);
        lemma_apply_plan_at(once, arts, k);
    }
    assert(twice.dom() =~= once.dom());
    assert(twice =~= once);
}

/// Running the materializer twice against an unchanged configuration file
/// produces identical artifact contents: the same plan is computed both
/// times, and writing it again changes no file.
pub proof fn lemma_materialize_idempotent(dir: Map<Seq<u8>, Seq<u8>>, contents: Seq<u8>,
    pkg: Seq<u8>)
    ensures
        ({
            let ls = split_lines(contents);
            let arts = planned_artifacts(ls.take(first_malformed(ls)), pkg);
            apply_plan(apply_plan(dir, arts), arts) == apply_plan(dir, arts)
        }),
{
    let ls = split_lines(contents);
    lemma_apply_plan_idempotent(dir, planned_artifacts(ls.take(first_malformed(ls)), pkg));
}

/// On a fully well-formed file, the artifact file named by an owned entry
/// line's key exists after the run and holds that entry's value, provided
/// no later entry line owned by the same package repeats the key (a later
/// duplicate overwrites the file).
pub proof fn lemma_owned_entry_materialized(dir: Map<Seq<u8>, Seq<u8>>, ls: Seq<Seq<u8>>,
    pkg: Seq<u8>, i: int)
    requires
        forall|j: int| 0 <= j < ls.len() ==> line_well_formed(ls[j]),
        0 <= i < ls.len(),
        is_entry_line(ls[i]),
        entry_owner(ls[i]) == pkg,
        forall|j: int|
            i < j < ls.len() ==> !(is_entry_line(ls[j]) && entry_owner(ls[j]) == pkg
                && entry_key(ls[j]) == entry_key(ls[i])),
    ensures
        apply_plan(dir, planned_artifacts(ls, pkg)).dom().contains(entry_key(ls[i])),
        apply_plan(dir, planned_artifacts(ls, pkg))[entry_key(ls[i])] == entry_value(ls[i]),
{
    lemma_last_owned_value(ls, pkg, i);
    lemma_apply_plan_at(dir, planned_artifacts(ls, pkg), entry_key(ls[i]));
}

/// The last value planned for an owned entry's key, when no later owned
/// entry repeats the key, is that entry's value.
proof fn lemma_last_owned_value(ls: Seq<Seq<u8>>, pkg: Seq<u8>, i: int)
    requires
        0 <= i < ls.len(),
        is_entry_line(ls[i]),
        entry_owner(ls[i]) == pkg,
        forall|j: int|
            i < j < ls.len() ==> !(is_entry_line(ls[j]) && entry_owner(ls[j]) == pkg
                && entry_key(ls[j]) == entry_key(ls[i])),
    ensures
        last_planned_value(planned_artifacts(ls, pkg), entry_key(ls[i])) == Some(
            entry_value(ls[i]),
        ),
    decreases ls.len(),
{
    let k = entry_key(ls[i]);
    let arts = planned_artifacts(ls, pkg);
    let prefix = planned_artifacts(ls.drop_last(), pkg);
    if i == ls.len() - 1 {
        assert(arts.last() == (entry_key(ls[i]), entry_value(ls[i])));
    } else {
        assert(ls.drop_last()[i] == ls[i]);
        lemma_last_owned_value(ls.drop_last(), pkg, i);
        let added = line_contribution(ls.last(), pkg);
        if added.len() == 0 {
            assert(arts =~= prefix);
        } else {
            assert(is_entry_line(ls.last()) && entry_owner(ls.last()) == pkg);
            assert(ls[ls.len() - 1] == ls.last());
            assert(entry_key(ls.last()) != k);
            assert(arts.last() == (entry_key(ls.last()), entry_value(ls.last())));
            assert(arts.drop_last() =~= prefix);
        }
    }
}

} // verus!
