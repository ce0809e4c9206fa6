//! Finding the snapshot that covers a frame.

use vstd::prelude::*;

use crate::naming::{parse_name, parse_snapshot_name};

verus! {

/// The snapshot named `name` spans a range of frames that holds `frame_no`.
pub open spec fn covers(name: Seq<char>, frame_no: u64) -> bool {
    match parse_name(name) {
        Some((_, start, end)) => start <= frame_no <= end,
        None => false,
    }
}

/// Among the file names of a snapshot directory, the position of the first
/// snapshot whose range holds `frame_no`. Names that are not snapshot names
/// are passed over.
pub fn find_snapshot_file(names: &Vec<String>, frame_no: u64) -> (r: Option<usize>)
    ensures
        match r {
            Some(i) => i < names@.len() && covers(names@[i as int]@, frame_no) && forall|j: int|
                0 <= j < i ==> !covers(#[trigger] names@[j]@, frame_no),
            None => forall|j: int| 0 <= j < names@.len() ==> !covers(#[trigger] names@[j]@, frame_no),
        },
{
    let mut i: usize = 0;
    while i < names.len()
        invariant
            0 <= i <= names@.len(),
            forall|j: int| 0 <= j < i ==> !covers(#[trigger] names@[j]@, frame_no),
        decreases names@.len() - i,
    {
        match parse_snapshot_name(names[i].as_str()) {
            Some((_, start, end)) => {
                if start <= frame_no && frame_no <= end {
                    return Some(i);
                }
            },
            None => {},
        }
        i = i + 1;
    }
    None
}

/// The positions, in order, of the names of a snapshot directory that are
/// snapshot names; other files are passed over.
pub fn snapshot_positions(names: &Vec<String>) -> (r: Vec<usize>)
    ensures
        forall|k: int|
            0 <= k < r@.len() ==> r@[k] < names@.len() && parse_name(
                names@[#[trigger] r@[k] as int]@,
            ) is Some,
        forall|a: int, b: int| 0 <= a < b < r@.len() ==> r@[a] < r@[b],
        forall|j: int|
            0 <= j < names@.len() && parse_name((#[trigger] names@[j])@) is Some ==> r@.contains(
                j as usize,
            ),
{
    let mut r: Vec<usize> = Vec::new();
    let mut i: usize = 0;
    while i < names.len()
        invariant
            0 <= i <= names@.len(),
            forall|k: int|
                0 <= k < r@.len() ==> r@[k] < i && parse_name(names@[#[trigger] r@[k] as int]@) is Some,
            forall|a: int, b: int| 0 <= a < b < r@.len() ==> r@[a] < r@[b],
            forall|j: int|
                0 <= j < i && parse_name((#[trigger] names@[j])@) is Some ==> r@.contains(j as usize),
        decreases names@.len() - i,
    {
        if parse_snapshot_name(names[i].as_str()).is_some() {
            let ghost r0 = r@;
            r.push(i);
            assert forall|j: int|
                0 <= j < i + 1 && parse_name((#[trigger] names@[j])@) is Some implies r@.contains(
                    j as usize,
                ) by {
                if j < i {
                    let k = choose|k: int| 0 <= k < r0.len() && r0[k] == j as usize;
                    assert(r@[k] == j as usize);
                } else {
                    assert(r@[r0.len() as int] == i);
                }
            }
        }
        i = i + 1;
    }
    r
}

} // verus!
