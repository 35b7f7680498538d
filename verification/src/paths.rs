//! Locations of the backing store, derived from the home directory.

use vstd::prelude::*;
use vstd::string::*;

verus! {

/// Directory under the user's home that holds the backing file.
pub fn get_dir_path(home: &str) -> (r: String)
    ensures
        r@ == home@ + "/.clipboard"@,
{
    let mut p = home.to_owned();
    p.append("/.clipboard");
    p
}

/// Full path of the JSON file that holds the persisted document.
pub fn get_file_path(home: &str) -> (r: String)
    ensures
        r@ == home@ + "/.clipboard"@ + "/map.json"@,
{
    let mut p = get_dir_path(home);
    p.append("/map.json");
    p
}

} // verus!
