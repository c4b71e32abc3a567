//! Splitting the shared configuration file's bytes into lines.
//!
//! A line ends at a line-feed byte; the final line needs no terminator, and
//! a file ending in a line feed yields no extra empty line. A carriage
//! return directly before a line feed is part of the terminator, not of
//! the line's content; a carriage return anywhere else, including at the
//! end of an unterminated final line, is kept.

use vstd::prelude::*;
use crate::bytes::{first_occurrence, lemma_first_occurrence, find_from};

verus! {

pub const LINE_FEED: u8 = 10;

pub const CARRIAGE_RETURN: u8 = 13;

/// A line-feed-terminated segment without its trailing carriage return,
/// if it has one: the remains of a two-byte line terminator.
pub open spec fn strip_carriage_return(l: Seq<u8>) -> Seq<u8> {
    if l.len() > 0 && l[l.len() - 1] == CARRIAGE_RETURN {
        l.drop_last()
    } else {
        l
    }
}

/// The lines of `s`, in order, split at each line-feed byte, each with
/// the carriage return of a two-byte terminator removed. An empty file
/// has no lines, and a trailing line feed contributes no final empty
/// line; an unterminated final line keeps all its bytes.
pub open spec fn split_lines(s: Seq<u8>) -> Seq<Seq<u8>>
    decreases s.len(),
{
    if s.len() == 0 {
        seq![]
    } else {
        let i = first_occurrence(s, LINE_FEED);
        proof {
            lemma_first_occurrence(s, LINE_FEED);
        }
        if i == s.len() {
            seq![s]
        } else {
            seq![strip_carriage_return(s.take(i))] + split_lines(s.skip(i + 1))
        }
    }
}

/// Splits `s` into its lines, as `split_lines` describes.
pub fn split_into_lines(s: &[u8]) -> (r: Vec<Vec<u8>>)
    ensures
        r@.map_values(|l: Vec<u8>| l@) == split_lines(s@),
{
    let mut out: Vec<Vec<u8>> = Vec::new();
    let mut pos: usize = 0;
    proof {
        assert(s@.skip(0) =~= s@);
        assert(out@.map_values(|l: Vec<u8>| l@) + split_lines(s@) =~= split_lines(s@));
    }
    while pos < s.len()
        invariant
            pos <= s@.len(),
            split_lines(s@) == out@.map_values(|l: Vec<u8>| l@) + split_lines(
                s@.skip(pos as int),
            ),
        decreases s@.len() - pos,
    {
        let ghost suffix = s@.skip(pos as int);
        let ghost i = first_occurrence(suffix, LINE_FEED);
        proof {
            lemma_first_occurrence(suffix, LINE_FEED);
        }
        let nl = find_from(s, pos, LINE_FEED);
        let end = if nl < s.len() && nl > pos && s[nl - 1] == CARRIAGE_RETURN {
            nl - 1
        } else {
            nl
        };
        let line = vstd::slice::slice_to_vec(vstd::slice::slice_subrange(s, pos, end));
        proof {
            if i == suffix.len() {
                assert(line@ =~= suffix);
            } else {
                assert(line@ =~= strip_carriage_return(suffix.take(i)));
            }
        }
        let ghost prev = out@;
        out.push(line);
        proof {
            assert(out@.map_values(|l: Vec<u8>| l@) =~= prev.map_values(|l: Vec<u8>| l@).push(
                line@,
            ));
        }
        if nl == s.len() {
            pos = s.len();
            proof {
                assert(split_lines(suffix) == seq![suffix]);
                assert(split_lines(s@.skip(pos as int)) =~= Seq::<Seq<u8>>::empty());
                assert(split_lines(s@) =~= out@.map_values(|l: Vec<u8>| l@));
            }
        } else {
            pos = nl + 1;
            proof {
                assert(suffix.skip(i + 1) =~= s@.skip(pos as int));
                assert(split_lines(suffix) == seq![strip_carriage_return(suffix.take(i))]
                    + split_lines(s@.skip(pos as int)));
            }
        }
    }
    proof {
        assert(split_lines(s@.skip(pos as int)) =~= Seq::<Seq<u8>>::empty());
        assert(out@.map_values(|l: Vec<u8>| l@) =~= split_lines(s@));
    }
    out
}

} // verus!
