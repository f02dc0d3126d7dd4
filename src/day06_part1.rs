//! How many cells the guard visits before leaving the grid or looping.
use crate::day06::{load_map, load_spec, search, visited_count, Board, LoadError};
use crate::text::{decimal, usize_to_string};
use vstd::prelude::*;
use vstd::string::StringSliceAdditionalSpecFns;

verus! {

/// The number of cells the guard walks through, obstacles excepted, in
/// decimal; or why the text is no map.
pub fn process(input: &str) -> (r: Result<String, LoadError>)
    ensures
        match r {
            Ok(s) => load_spec(input.spec_bytes()) is Ok && s@ == decimal(
                visited_count(load_spec(input.spec_bytes()).unwrap().walk().1.cells),
            ),
            Err(e) => load_spec(input.spec_bytes()) == Err::<Board, LoadError>(e),
        },
{
    let mut scene = match load_map(input) {
        Ok(s) => s,
        Err(e) => return Err(e),
    };
    search(&mut scene);
    Ok(usize_to_string(scene.visited_cells()))
}

} // verus!
