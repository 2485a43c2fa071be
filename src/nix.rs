//! Package references for the optional Nix environment.
use crate::text::{contains_char, push_char, views};
use vstd::prelude::*;

verus! {

/// Where the Nix packages of a Zinnfile come from.
pub struct NixConfig {
    /// Flake reference of the package set.
    pub nixpkgs: String,
    /// Packages to put into the environment.
    pub packages: Vec<String>,
}

pub fn default_nixpkgs() -> (r: String)
    ensures
        r@ == "nixpkgs"@,
{
    String::from_str("nixpkgs")
}

/// A package as an installable: as given where it names its flake (holds a
/// `#`), else from the configured package set.
pub open spec fn flake_ref(nixpkgs: Seq<char>, package: Seq<char>) -> Seq<char> {
    if package.contains('#') {
        package
    } else {
        nixpkgs + seq!['#'] + package
    }
}

pub fn to_flake_parameters(nix_config: &NixConfig, packages: &Vec<String>) -> (r: Vec<String>)
    ensures
        r.len() == packages.len(),
        forall|i: int| 0 <= i < r.len() ==> (#[trigger] r@[i])@ == flake_ref(nix_config.nixpkgs@, packages@[i]@),
{
    let mut out: Vec<String> = Vec::new();
    let mut i: usize = 0;
    while i < packages.len()
        invariant
            i <= packages.len(),
            out.len() == i,
            forall|k: int| 0 <= k < i ==> (#[trigger] out@[k])@ == flake_ref(nix_config.nixpkgs@, packages@[k]@),
        decreases packages.len() - i,
    {
        let p = &packages[i];
        if contains_char(p.as_str(), '#') {
            out.push(p.clone());
        } else {
            let mut s = nix_config.nixpkgs.clone();
            push_char(&mut s, '#');
            s.append(p.as_str());
            out.push(s);
        }
        i += 1;
    }
    out
}

} // verus!
