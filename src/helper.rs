use vstd::prelude::*;
use vstd::string::StringExecFns;

verus! {

/// The path of a component's file: `name/` then the component's type and id.
pub fn get_files_name(name: &String, component_id: &String, component_type: &str, filename_size: usize) -> (r: String)
    ensures
        r@ == name@ + seq!['/'] + component_type@ + component_id@,
{
    let mut filename = String::new();
    filename.append(name.as_str());
    filename.append("/");
    filename.append(component_type);
    filename.append(component_id.as_str());
    proof {
        reveal_strlit("/");
    }
    assert(filename@ =~= name@ + seq!['/'] + component_type@ + component_id@);
    filename
}

} // verus!
