//! Deriving the shared configuration file's path from the package's
//! private build-output directory.
//!
//! The build-output directory is a descendant of the build tool's shared
//! output root, a directory with a conventional name. The walk moves
//! upward from the deepest path component until it meets that name; the
//! configuration file then sits next to the shared output root, in the
//! project root, under a fixed file name. A path with no component of the
//! conventional name is a distinct, explicit failure: the walk never
//! loops past the topmost component.

use vstd::prelude::*;
use crate::bytes::{bytes_eq, views};

verus! {

/// No component of the build-output directory's path has the conventional
/// shared-output name, so no configuration file path can be derived.
#[derive(Debug)]
pub struct LocateError {}

/// Whether some path component equals `marker`.
pub open spec fn has_marker(comps: Seq<Seq<u8>>, marker: Seq<u8>) -> bool {
    exists|i: int| 0 <= i < comps.len() && comps[i] == marker
}

/// Index of the deepest (last) component equal to `marker`; `-1` when
/// there is none.
pub open spec fn last_marker(comps: Seq<Seq<u8>>, marker: Seq<u8>) -> int
    decreases comps.len(),
{
    if comps.len() == 0 {
        -1
    } else if comps.last() == marker {
        comps.len() - 1
    } else {
        last_marker(comps.drop_last(), marker)
    }
}

/// `last_marker` is the greatest index holding `marker`, and it is `-1`
/// exactly when no component holds it.
pub proof fn lemma_last_marker(comps: Seq<Seq<u8>>, marker: Seq<u8>)
    ensures
        -1 <= last_marker(comps, marker) < comps.len(),
        last_marker(comps, marker) >= 0 ==> comps[last_marker(comps, marker)] == marker,
        forall|j: int| last_marker(comps, marker) < j < comps.len() ==> comps[j] != marker,
        (last_marker(comps, marker) >= 0 <==> has_marker(comps, marker)),
    decreases comps.len(),
{
    if comps.len() == 0 {
    } else if comps.last() == marker {
    } else {
        lemma_last_marker(comps.drop_last(), marker);
        assert forall|j: int| last_marker(comps, marker) < j < comps.len() implies comps[j]
            != marker by {
            if j < comps.len() - 1 {
                assert(comps.drop_last()[j] == comps[j]);
            }
        }
        if last_marker(comps, marker) >= 0 {
            assert(comps.drop_last()[last_marker(comps, marker)] == comps[last_marker(
                comps,
                marker,
            )]);
        }
        if has_marker(comps, marker) {
            let i = choose|i: int| 0 <= i < comps.len() && comps[i] == marker;
            assert(i < comps.len() - 1);
            assert(comps.drop_last()[i] == comps[i]);
            assert(has_marker(comps.drop_last(), marker));
        }
    }
}

/// The derived path: everything above the deepest `marker` component (the
/// project root), with `file_name` appended.
pub open spec fn derived_config_path(comps: Seq<Seq<u8>>, marker: Seq<u8>, file_name: Seq<u8>)
    -> Seq<Seq<u8>> {
    comps.take(last_marker(comps, marker)) + seq![file_name]
}

/// Walks the path components upward from the deepest one until one equals
/// `marker`, and returns the components of the sibling file `file_name` of
/// that directory; fails explicitly when no component matches.
pub fn locate_config_file(comps: &Vec<Vec<u8>>, marker: &[u8], file_name: &[u8]) -> (r: Result<
    Vec<Vec<u8>>,
    LocateError,
>)
    ensures
        r is Ok <==> has_marker(views(comps@), marker@),
        (match r {
            Ok(path) => views(path@) == derived_config_path(
                views(comps@),
                marker@,
                file_name@,
            ),
            Err(_) => true,
        }),
{
    let ghost cv = views(comps@);
    let mut i: usize = comps.len();
    while i > 0
        invariant
            i <= comps@.len(),
            cv == views(comps@),
            forall|j: int| i <= j < cv.len() ==> cv[j] != marker@,
        decreases i,
    {
        i = i - 1;
        let found = bytes_eq(comps[i].as_slice(), marker);
        proof {
            assert(cv[i as int] == comps@[i as int]@);
        }
        if found {
            proof {
                assert(has_marker(cv, marker@));
                assert(last_marker(cv, marker@) == i as int) by {
                    lemma_last_marker(cv, marker@);
                }
            }
            let mut path: Vec<Vec<u8>> = Vec::new();
            let mut j: usize = 0;
            while j < i
                invariant
                    j <= i <= comps@.len(),
                    cv == views(comps@),
                    views(path@) == cv.take(j as int),
                decreases i - j,
            {
                let ghost prev = path@;
                path.push(vstd::slice::slice_to_vec(comps[j].as_slice()));
                proof {
                    assert(views(prev).len() == prev.len());
                    assert(path@.len() == j + 1);
                    assert(cv[j as int] == comps@[j as int]@);
                    assert forall|k: int| 0 <= k < j + 1 implies views(path@)[k] == cv.take(
                        j + 1,
                    )[k] by {
                        if k < j {
                            assert(views(prev)[k] == cv.take(j as int)[k]);
                        }
                    }
                    assert(views(path@) =~= cv.take(j + 1));
                }
                j = j + 1;
            }
            path.push(vstd::slice::slice_to_vec(file_name));
            proof {
                assert(views(path@) =~= derived_config_path(
                    cv,
                    marker@,
                    file_name@,
                ));
            }
            return Ok(path);
        }
    }
    proof {
        lemma_last_marker(cv, marker@);
    }
    Err(LocateError {})
}

/// The build tool's conventional name for the shared output root.
pub open spec fn shared_output_dir_name() -> Seq<u8> {
    seq![116u8, 97u8, 114u8, 103u8, 101u8, 116u8]
}

/// The fixed file name of the shared configuration file.
pub open spec fn config_file_name() -> Seq<u8> {
    seq![46u8, 101u8, 110u8, 118u8]
}

/// The conventional shared-output directory name, `target`, as bytes.
pub fn shared_output_dir_name_bytes() -> (r: Vec<u8>)
    ensures
        r@ == shared_output_dir_name(),
{
    let mut v: Vec<u8> = Vec::new();
    v.push(116);
    v.push(97);
    v.push(114);
    v.push(103);
    v.push(101);
    v.push(116);
    proof {
        assert(v@ =~= shared_output_dir_name());
    }
    v
}

/// The shared configuration file's name, `.env`, as bytes.
pub fn config_file_name_bytes() -> (r: Vec<u8>)
    ensures
        r@ == config_file_name(),
{
    let mut v: Vec<u8> = Vec::new();
    v.push(46);
    v.push(101);
    v.push(110);
    v.push(118);
    proof {
        assert(v@ =~= config_file_name());
    }
    v
}

/// Locates the shared configuration file under the build tool's default
/// conventions: the deepest path component named `target` is the shared
/// output root, and the file `.env` sits next to it.
pub fn locate_shared_config(comps: &Vec<Vec<u8>>) -> (r: Result<Vec<Vec<u8>>, LocateError>)
    ensures
        r is Ok <==> has_marker(views(comps@), shared_output_dir_name()),
        (match r {
            Ok(path) => views(path@) == derived_config_path(
                views(comps@),
                shared_output_dir_name(),
                config_file_name(),
            ),
            Err(_) => true,
        }),
{
    let marker = shared_output_dir_name_bytes();
    let file_name = config_file_name_bytes();
    locate_config_file(comps, marker.as_slice(), file_name.as_slice())
}

} // verus!
