//! The list of recently opened or saved project files.

use vstd::prelude::*;

verus! {

/// The file names of the list, as text.
pub open spec fn project_names(projects: Seq<String>) -> Seq<Seq<char>> {
    projects.map_values(|p: String| p@)
}

/// Notes a project file that was opened or saved: its name is added last
/// unless the list holds it already.
pub fn remember_project(last_projects: &mut Vec<String>, file_name: String)
    ensures
        project_names(old(last_projects)@).contains(file_name@) ==> final(last_projects)@ == old(last_projects)@,
        !project_names(old(last_projects)@).contains(file_name@) ==> final(last_projects)@ == old(last_projects)@.push(
            file_name,
        ),
{
    let mut k: usize = 0;
    while k < last_projects.len()
        invariant
            k <= last_projects@.len(),
            forall|m: int| 0 <= m < k ==> last_projects@[m]@ != file_name@,
        decreases last_projects@.len() - k,
    {
        if last_projects[k] == file_name {
            proof {
                assert(project_names(last_projects@)[k as int] == file_name@);
            }
            return;
        }
        k += 1;
    }
    proof {
        assert(!project_names(last_projects@).contains(file_name@)) by {
            if project_names(last_projects@).contains(file_name@) {
                let m = choose|m: int| 0 <= m < project_names(last_projects@).len() && project_names(last_projects@)[m] == file_name@;
                assert(last_projects@[m]@ == file_name@);
            }
        }
    }
    last_projects.push(file_name);
}

} // verus!
