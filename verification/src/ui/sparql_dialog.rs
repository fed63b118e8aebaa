//! State of the dialog that asks for a SPARQL endpoint.

use vstd::prelude::*;

verus! {

/// The endpoint being edited and the entry chosen among the endpoints used
/// before.
pub struct SparqlDialog {
    pub endpoint: String,
    pub current_combo: usize,
}

impl SparqlDialog {
    /// A dialog that starts with the most recently used endpoint, if any.
    pub fn new(last_endpoints: &[String]) -> (res: Self)
        ensures
            res.current_combo == 0,
            last_endpoints@.len() > 0 ==> res.endpoint@ == last_endpoints@[0]@,
            last_endpoints@.len() == 0 ==> res.endpoint@ == Seq::<char>::empty(),
    {
        Self {
            current_combo: 0,
            endpoint: if last_endpoints.len() > 0 {
                last_endpoints[0].clone()
            } else {
                String::new()
            },
        }
    }
}

} // verus!
