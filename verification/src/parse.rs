//! The line grammar of the shared configuration file.
//!
//! A line is either a comment (its first byte is the comment marker) or an
//! entry `owner ':' key '=' value`: the owner is everything before the
//! first colon, the key everything between that colon and the first
//! equals sign after it, and the value the whole rest of the line, equals
//! signs included. A non-comment line missing either delimiter is
//! malformed.

use vstd::prelude::*;
use crate::bytes::{first_occurrence, lemma_first_occurrence, lemma_first_occurrence_unique,
    find_from};

verus! {

pub const COMMENT_MARKER: u8 = 35;

pub const OWNER_DELIMITER: u8 = 58;

pub const KEY_DELIMITER: u8 = 61;

/// One parsed entry line: the package the value is intended for, the name
/// of the artifact file, and the bytes to store in it.
pub struct Entry {
    pub owner: Vec<u8>,
    pub key: Vec<u8>,
    pub value: Vec<u8>,
}

/// What a well-formed line of the shared configuration file holds.
pub enum ParsedLine {
    Comment,
    Entry(Entry),
}

/// Whether the line's first byte marks it as a comment.
pub open spec fn is_comment_line(l: Seq<u8>) -> bool {
    l.len() > 0 && l[0] == COMMENT_MARKER
}

/// Index of the first colon, `l.len()` when there is none.
pub open spec fn owner_end(l: Seq<u8>) -> int {
    first_occurrence(l, OWNER_DELIMITER)
}

/// Everything after the first colon.
pub open spec fn line_remainder(l: Seq<u8>) -> Seq<u8> {
    l.skip(owner_end(l) + 1)
}

/// Index, within the remainder, of the first equals sign after the first
/// colon; the remainder's length when there is none.
pub open spec fn key_end(l: Seq<u8>) -> int {
    first_occurrence(line_remainder(l), KEY_DELIMITER)
}

/// Whether a non-comment line carries both delimiters in order.
pub open spec fn is_entry_line(l: Seq<u8>) -> bool {
    &&& !is_comment_line(l)
    &&& owner_end(l) < l.len()
    &&& key_end(l) < line_remainder(l).len()
}

pub open spec fn entry_owner(l: Seq<u8>) -> Seq<u8> {
    l.take(owner_end(l))
}

pub open spec fn entry_key(l: Seq<u8>) -> Seq<u8> {
    line_remainder(l).take(key_end(l))
}

pub open spec fn entry_value(l: Seq<u8>) -> Seq<u8> {
    line_remainder(l).skip(key_end(l) + 1)
}

/// A line that parses: a comment, or an entry with both delimiters.
pub open spec fn line_well_formed(l: Seq<u8>) -> bool {
    is_comment_line(l) || is_entry_line(l)
}

/// Parses one line. Comments parse to [`ParsedLine::Comment`] whatever
/// follows the marker; an entry line yields its owner, key and value; a
/// line missing a delimiter yields `None`.
pub fn parse_line(l: &[u8]) -> (r: Option<ParsedLine>)
    ensures
        r is Some <==> line_well_formed(l@),
        is_comment_line(l@) ==> r == Some(ParsedLine::Comment),
        is_entry_line(l@) ==> (match r {
            Some(ParsedLine::Entry(e)) => {
                &&& e.owner@ == entry_owner(l@)
                &&& e.key@ == entry_key(l@)
                &&& e.value@ == entry_value(l@)
            },
            _ => false,
        }),
{
    if l.len() > 0 && l[0] == COMMENT_MARKER {
        return Some(ParsedLine::Comment);
    }
    proof {
        assert(l@.skip(0) =~= l@);
        lemma_first_occurrence(l@, OWNER_DELIMITER);
    }
    let colon = find_from(l, 0, OWNER_DELIMITER);
    if colon == l.len() {
        return None;
    }
    let ghost remainder = line_remainder(l@);
    proof {
        assert(remainder =~= l@.skip(colon + 1));
        lemma_first_occurrence(remainder, KEY_DELIMITER);
    }
    let eq = find_from(l, colon + 1, KEY_DELIMITER);
    if eq == l.len() {
        proof {
            assert(key_end(l@) == remainder.len());
        }
        return None;
    }
    let owner = vstd::slice::slice_to_vec(vstd::slice::slice_subrange(l, 0, colon));
    let key = vstd::slice::slice_to_vec(vstd::slice::slice_subrange(l, colon + 1, eq));
    let value = vstd::slice::slice_to_vec(vstd::slice::slice_subrange(l, eq + 1, l.len()));
    proof {
        assert(owner@ =~= entry_owner(l@));
        assert(key@ =~= entry_key(l@));
        assert(value@ =~= entry_value(l@));
    }
    Some(ParsedLine::Entry(Entry { owner, key, value }))
}

/// Composing `owner ':' key '=' value` and parsing it back returns exactly
/// the three parts, whatever bytes the value holds: in particular a value
/// may contain further equals signs, and only the first equals sign after
/// the first colon delimits the key.
pub proof fn lemma_compose_then_parse(owner: Seq<u8>, key: Seq<u8>, value: Seq<u8>)
    requires
        forall|j: int| 0 <= j < owner.len() ==> owner[j] != OWNER_DELIMITER,
        forall|j: int| 0 <= j < key.len() ==> key[j] != KEY_DELIMITER,
        owner.len() > 0 ==> owner[0] != COMMENT_MARKER,
    ensures
        is_entry_line(owner + seq![OWNER_DELIMITER] + key + seq![KEY_DELIMITER] + value),
        entry_owner(owner + seq![OWNER_DELIMITER] + key + seq![KEY_DELIMITER] + value) == owner,
        entry_key(owner + seq![OWNER_DELIMITER] + key + seq![KEY_DELIMITER] + value) == key,
        entry_value(owner + seq![OWNER_DELIMITER] + key + seq![KEY_DELIMITER] + value) == value,
{
    let l = owner + seq![OWNER_DELIMITER] + key + seq![KEY_DELIMITER] + value;
    assert(l[owner.len() as int] == OWNER_DELIMITER);
    lemma_first_occurrence_unique(l, OWNER_DELIMITER, owner.len() as int);
    let remainder = line_remainder(l);
    assert(remainder =~= key + seq![KEY_DELIMITER] + value);
    assert(remainder[key.len() as int] == KEY_DELIMITER);
    lemma_first_occurrence_unique(remainder, KEY_DELIMITER, key.len() as int);
    assert(entry_owner(l) =~= owner);
    assert(entry_key(l) =~= key);
    assert(entry_value(l) =~= value);
}

} // verus!
