//! Static allow-lists of well-known interfaces: those the standard library
//! already provides (never bound explicitly) and those the first-party
//! runtime SDK ships bindings for (reused instead of regenerated).

use vstd::prelude::*;
use vstd::string::*;

use crate::bytes::{bytes_eq, starts_with};
use crate::name::PackageName;

verus! {

/// Interfaces implemented by the standard library; bindings never import
/// them explicitly.
pub open spec fn stdlib_interfaces() -> Seq<Seq<u8>> {
    seq![
        "wasi:cli/environment@0.2.0".spec_bytes(),
        "wasi:cli/exit@0.2.0".spec_bytes(),
        "wasi:cli/stdin@0.2.0".spec_bytes(),
        "wasi:cli/stdout@0.2.0".spec_bytes(),
        "wasi:cli/stderr@0.2.0".spec_bytes(),
        "wasi:clocks/wall-clock@0.2.0".spec_bytes(),
        "wasi:filesystem/types@0.2.0".spec_bytes(),
        "wasi:filesystem/preopens@0.2.0".spec_bytes(),
        "wasi:io/error@0.2.0".spec_bytes(),
        "wasi:io/streams@0.2.0".spec_bytes(),
        "wasi:random/random@0.2.0".spec_bytes(),
    ]
}

/// Interfaces whose bindings the first-party runtime SDK already ships.
pub open spec fn sdk_interfaces() -> Seq<Seq<u8>> {
    seq![
        "wasi:http/incoming-handler@0.2.0".spec_bytes(),
        "wasi:keyvalue/store@0.2.0-draft2".spec_bytes(),
        "wasi:keyvalue/batch@0.2.0-draft2".spec_bytes(),
        "wasi:keyvalue/atomics@0.2.0-draft2".spec_bytes(),
        "wasi:config/store@0.2.0-draft-2024-09-27".spec_bytes(),
    ]
}

/// Whether a qualified name is a standard-library interface.
pub open spec fn stdlib_known_spec(s: Seq<u8>) -> bool {
    stdlib_interfaces().contains(s)
}

/// Whether a qualified name is provided by the first-party SDK: a listed
/// interface, or anything under the SDK's own namespace.
pub open spec fn sdk_known_spec(s: Seq<u8>) -> bool {
    sdk_interfaces().contains(s) || (s.len() >= "spin:".spec_bytes().len() && s.subrange(
        0,
        "spin:".spec_bytes().len() as int,
    ) == "spin:".spec_bytes())
}

/// The standard-library allow-list as executable strings.
fn stdlib_list() -> (r: Vec<&'static str>)
    ensures
        r@.len() == stdlib_interfaces().len(),
        forall|k: int|
            0 <= k < r@.len() ==> (#[trigger] r@[k]).spec_bytes() == stdlib_interfaces()[k],
{
    let mut v: Vec<&'static str> = Vec::new();
    v.push("wasi:cli/environment@0.2.0");
    v.push("wasi:cli/exit@0.2.0");
    v.push("wasi:cli/stdin@0.2.0");
    v.push("wasi:cli/stdout@0.2.0");
    v.push("wasi:cli/stderr@0.2.0");
    v.push("wasi:clocks/wall-clock@0.2.0");
    v.push("wasi:filesystem/types@0.2.0");
    v.push("wasi:filesystem/preopens@0.2.0");
    v.push("wasi:io/error@0.2.0");
    v.push("wasi:io/streams@0.2.0");
    v.push("wasi:random/random@0.2.0");
    v
}

/// The SDK allow-list as executable strings.
fn sdk_list() -> (r: Vec<&'static str>)
    ensures
        r@.len() == sdk_interfaces().len(),
        forall|k: int| 0 <= k < r@.len() ==> (#[trigger] r@[k]).spec_bytes() == sdk_interfaces()[k],
{
    let mut v: Vec<&'static str> = Vec::new();
    v.push("wasi:http/incoming-handler@0.2.0");
    v.push("wasi:keyvalue/store@0.2.0-draft2");
    v.push("wasi:keyvalue/batch@0.2.0-draft2");
    v.push("wasi:keyvalue/atomics@0.2.0-draft2");
    v.push("wasi:config/store@0.2.0-draft-2024-09-27");
    v
}

/// Whether the byte form of a qualified name is in the given list.
fn bytes_in_list(list: &Vec<&'static str>, b: &[u8], Ghost(model): Ghost<Seq<Seq<u8>>>) -> (r: bool)
    requires
        list@.len() == model.len(),
        forall|k: int| 0 <= k < list@.len() ==> (#[trigger] list@[k]).spec_bytes() == model[k],
    ensures
        r == model.contains(b@),
{
    let mut k: usize = 0;
    while k < list.len()
        invariant
            k <= list@.len(),
            list@.len() == model.len(),
            forall|j: int| 0 <= j < list@.len() ==> (#[trigger] list@[j]).spec_bytes() == model[j],
            forall|j: int| 0 <= j < k ==> model[j] != b@,
        decreases list.len() - k,
    {
        if bytes_eq(b, list[k].as_bytes()) {
            assert(model[k as int] == b@);
            assert(model.contains(b@));
            return true;
        }
        k += 1;
    }
    proof {
        if model.contains(b@) {
            let j = choose|j: int| 0 <= j < model.len() && model[j] == b@;
            assert(false);
        }
    }
    false
}

/// Returns whether the interface is implemented by the standard library and
/// therefore never bound explicitly.
pub fn is_stdlib_known(interface_name: &str) -> (r: bool)
    ensures
        r == stdlib_known_spec(interface_name.spec_bytes()),
{
    let list = stdlib_list();
    bytes_in_list(&list, interface_name.as_bytes(), Ghost(stdlib_interfaces()))
}

/// Byte-level form of the standard-library check.
pub fn stdlib_known_bytes(interface_name: &[u8]) -> (r: bool)
    ensures
        r == stdlib_known_spec(interface_name@),
{
    let list = stdlib_list();
    bytes_in_list(&list, interface_name, Ghost(stdlib_interfaces()))
}

/// Returns whether the interface's bindings are already provided by the
/// first-party SDK.
pub fn is_sdk_known(interface_name: &str) -> (r: bool)
    ensures
        r == sdk_known_spec(interface_name.spec_bytes()),
{
    sdk_known_bytes(interface_name.as_bytes())
}

/// Byte-level form of the SDK check.
pub fn sdk_known_bytes(interface_name: &[u8]) -> (r: bool)
    ensures
        r == sdk_known_spec(interface_name@),
{
    let list = sdk_list();
    if bytes_in_list(&list, interface_name, Ghost(sdk_interfaces())) {
        return true;
    }
    starts_with(interface_name, "spin:".as_bytes())
}

/// Renders the module identifier used for a dependency's generated
/// bindings file: namespace and name joined by an underscore.
pub fn identifier_safe(package_name: &PackageName) -> (r: Vec<u8>)
    ensures
        r@ == package_name@.ns + seq![('_' as u8)] + package_name@.name,
{
    let mut out = crate::name::copy_bytes(&package_name.namespace);
    out.push('_' as u8);
    crate::bytes::push_all(&mut out, package_name.name.as_slice());
    assert(out@ =~= package_name@.ns + seq![('_' as u8)] + package_name@.name);
    out
}

} // verus!
