//! Choosing how to read the rows of a literal: as JSON objects or as delimited
//! fields.

use vstd::prelude::*;
use crate::synth::delimited::{detect_scan_lit, line_start, lines_fire, lines_table};
use crate::synth::json::{
    detect_scan_json, is_objects_split, objects_fire, objects_table, run_fires, skip_blank,
};
use crate::synth::table::{is_split, pays_off, Grid, ScanResult};

verus! {

/// The first byte that is not blank opens an object, or opens an array whose
/// first byte opens an object.
pub open spec fn looks_like_json(data: Seq<u8>) -> bool {
    let f = skip_blank(data, 0, true);
    f < data.len() && (data[f] == 123 || (data[f] == 91 && f + 1 < data.len() && data[f + 1]
        == 123))
}

/// Returns whether the data starts like JSON objects do.
pub fn looks_json(data: &[u8]) -> (r: bool)
    ensures
        r == looks_like_json(data@),
{
    let mut f: usize = 0;
    while f < data.len() && (data[f] == 32 || data[f] == 9 || data[f] == 13 || data[f] == 10)
        invariant
            f <= data@.len(),
            skip_blank(data@, 0, true) == skip_blank(data@, f as int, true),
        decreases data.len() - f,
    {
        f = f + 1;
    }
    f < data.len() && (data[f] == 123 || (data[f] == 91 && data.len() - f > 1 && data[f + 1]
        == 123))
}

/// Some lines become a scan when fields are delimited by `d`.
pub open spec fn lines_fire_any(data: Seq<u8>, d: u8, id: u32) -> bool {
    exists|s: int, l: int| #[trigger] lines_fire(data, d, id, s, l)
}

/// The result splits the data around the lines that become a scan.
pub open spec fn is_lines_split(found: ScanResult, data: Seq<u8>, d: u8, id: u32) -> bool {
    exists|s: int, l: int| #[trigger]
        lines_fire(data, d, id, s, l) && is_split(
            found,
            lines_table(data, d, s, l),
            data,
            line_start(data, s),
            line_start(data, s + l),
            id,
        )
}

/// Some reading of the rows becomes a scan.
pub open spec fn fires(data: Seq<u8>, id: u32) -> bool {
    ||| looks_like_json(data) && objects_fire(data, id)
    ||| lines_fire_any(data, 44, id)
    ||| lines_fire_any(data, 9, id)
    ||| lines_fire_any(data, 124, id)
}

/// The result splits the data around a table that varies and pays off.
pub open spec fn is_scan_of(found: ScanResult, data: Seq<u8>, id: u32) -> bool {
    exists|g: Grid, from: int, to: int|
        g.varies() && pays_off(g, data, from, to, id) && #[trigger] is_split(
            found,
            g,
            data,
            from,
            to,
            id,
        )
}

/// The result comes from the first reading of the rows that becomes a scan: as
/// JSON objects, if the data starts like them, or as fields delimited by commas,
/// by tabs or by pipes.
pub open spec fn is_best_scan(found: ScanResult, data: Seq<u8>, id: u32) -> bool {
    if looks_like_json(data) && objects_fire(data, id) {
        is_objects_split(found, data, id)
    } else if lines_fire_any(data, 44, id) {
        is_lines_split(found, data, 44, id)
    } else if lines_fire_any(data, 9, id) {
        is_lines_split(found, data, 9, id)
    } else {
        is_lines_split(found, data, 124, id)
    }
}

/// Turns the rows of a literal into a table scan with macro `next_sub_id`, if
/// that pays off: JSON objects first, where the data starts like them, then
/// fields delimited by commas, tabs and pipes.
pub fn detect_scan_best(data: &[u8], next_sub_id: u32) -> (r: Option<ScanResult>)
    ensures
        match r {
            Some(found) => fires(data@, next_sub_id) && is_best_scan(found, data@, next_sub_id),
            None => !fires(data@, next_sub_id),
        },
        r matches Some(found) ==> is_scan_of(found, data@, next_sub_id),
{
    if looks_json(data) {
        if let Some(found) = detect_scan_json(data, next_sub_id) {
            proof {
                let (s, l) = choose|s: int, l: int| #[trigger]
                    run_fires(data@, next_sub_id, s, l) && is_split(
                        found,
                        objects_table(data@, s, l),
                        data@,
                        line_start(data@, s),
                        line_start(data@, s + l),
                        next_sub_id,
                    );
                assert(objects_table(data@, s, l).varies());
            }
            return Some(found);
        }
    }
    if let Some(found) = detect_scan_lit(data, 44, next_sub_id) {
        proof {
            lemma_lines_split(found, data@, 44, next_sub_id);
        }
        return Some(found);
    }
    if let Some(found) = detect_scan_lit(data, 9, next_sub_id) {
        proof {
            lemma_lines_split(found, data@, 9, next_sub_id);
        }
        return Some(found);
    }
    if let Some(found) = detect_scan_lit(data, 124, next_sub_id) {
        proof {
            lemma_lines_split(found, data@, 124, next_sub_id);
        }
        return Some(found);
    }
    None
}

proof fn lemma_lines_split(found: ScanResult, data: Seq<u8>, d: u8, id: u32)
    requires
        is_lines_split(found, data, d, id),
    ensures
        is_scan_of(found, data, id),
{
    let (s, l) = choose|s: int, l: int| #[trigger]
        lines_fire(data, d, id, s, l) && is_split(
            found,
            lines_table(data, d, s, l),
            data,
            line_start(data, s),
            line_start(data, s + l),
            id,
        );
    assert(lines_table(data, d, s, l).varies());
}

} // verus!
