pub mod chaininghash;
pub mod config;
pub mod course;
pub mod error;
pub mod openhash;
pub mod professors;

use std::rc::Rc;
use vstd::prelude::*;

use crate::chaininghash::ChainingHash;
use crate::course::Course;
use crate::error::TableError;
use crate::openhash::{open_build_spec, OpenHash};
use crate::professors::{index_shape, professor_index, Professors};

verus! {

/// Builds the three indexes over the same records, or none of them.
pub fn populate_hashes(courses: &Vec<Rc<Course>>, hash_size: usize) -> (r: Result<
    (OpenHash, ChainingHash, Professors),
    TableError,
>)
    ensures
        hash_size == 0 ==> r == Err::<(OpenHash, ChainingHash, Professors), TableError>(
            TableError::ConfigError,
        ),
        hash_size > 0 && open_build_spec(courses@, hash_size as nat) is None ==> r == Err::<
            (OpenHash, ChainingHash, Professors),
            TableError,
        >(TableError::TableFull),
        hash_size > 0 && open_build_spec(courses@, hash_size as nat) is Some ==> (r matches Ok(
            (o, c, p),
        ) && o.built_from(courses@, hash_size as nat) && c.built_from(courses@, hash_size as nat)
            && p.well_formed() && p@ == professor_index(courses@) && p.shape() == index_shape(
            courses@,
        )),
{
    let open_hash = match OpenHash::build(courses, hash_size) {
        Ok(t) => t,
        Err(e) => {
            return Err(e);
        },
    };
    let chaining_hash = match ChainingHash::build(courses, hash_size) {
        Ok(t) => t,
        Err(e) => {
            return Err(e);
        },
    };
    let professors = Professors::build(courses);
    Ok((open_hash, chaining_hash, professors))
}

} // verus!
