use vstd::prelude::*;
use vstd::string::StringExecFns;

verus! {

/// The namespace directory under which a component finds the services it may use.
pub const SERVICE_DIRECTORY: &'static str = "/svc";

/// The name of the instance of a unified service that is used when none is given.
pub const DEFAULT_SERVICE_INSTANCE: &'static str = "default";

/// The characters of `SERVICE_DIRECTORY`.
pub open spec fn svc_dir() -> Seq<char> {
    seq!['/', 's', 'v', 'c']
}

/// The characters of `DEFAULT_SERVICE_INSTANCE`.
pub open spec fn default_instance() -> Seq<char> {
    seq!['d', 'e', 'f', 'a', 'u', 'l', 't']
}

/// The path of the service called `service_name` under the directory `prefix`.
pub open spec fn service_path(prefix: Seq<char>, service_name: Seq<char>) -> Seq<char> {
    prefix + seq!['/'] + service_name
}

/// Returns the path at which the FIDL service called `service_name` is found
/// in a component's namespace, the one to connect a channel to.
pub fn connect_to_service(service_name: &str) -> (r: String)
    ensures
        r@ == service_path(svc_dir(), service_name@),
{
    proof {
        reveal_strlit("/svc");
    }
    assert(SERVICE_DIRECTORY@ =~= svc_dir());
    connect_to_service_at(SERVICE_DIRECTORY, service_name)
}

/// Returns the path of the FIDL service called `service_name` under the namespace prefix `service_prefix`.
pub fn connect_to_service_at(service_prefix: &str, service_name: &str) -> (r: String)
    ensures
        r@ == service_path(service_prefix@, service_name@),
{
    proof {
        reveal_strlit("/");
    }
    let mut path = String::from_str(service_prefix);
    path.append("/");
    path.append(service_name);
    assert(path@ =~= service_path(service_prefix@, service_name@));
    path
}

/// Returns the path of the instance `instance` of the unified service called
/// `service_name` under the namespace prefix `service_prefix`: the directory
/// the service's members are opened in.
pub fn connect_to_unified_service_instance_at(
    service_prefix: &str,
    service_name: &str,
    instance: &str,
) -> (r: String)
    ensures
        r@ == service_path(service_path(service_prefix@, service_name@), instance@),
{
    proof {
        reveal_strlit("/");
    }
    let mut path = connect_to_service_at(service_prefix, service_name);
    path.append("/");
    path.append(instance);
    assert(path@ =~= service_path(service_path(service_prefix@, service_name@), instance@));
    path
}

/// Returns the directory of the instance `instance` of the unified service
/// called `service_name`, under the default namespace prefix.
pub fn connect_to_unified_service_instance(service_name: &str, instance: &str) -> (r: String)
    ensures
        r@ == service_path(service_path(svc_dir(), service_name@), instance@),
{
    proof {
        reveal_strlit("/svc");
    }
    assert(SERVICE_DIRECTORY@ =~= svc_dir());
    connect_to_unified_service_instance_at(SERVICE_DIRECTORY, service_name, instance)
}

/// Returns the directory of the default instance of the unified service
/// called `service_name`, under the default namespace prefix.
pub fn connect_to_unified_service(service_name: &str) -> (r: String)
    ensures
        r@ == service_path(service_path(svc_dir(), service_name@), default_instance()),
{
    proof {
        reveal_strlit("default");
    }
    assert(DEFAULT_SERVICE_INSTANCE@ =~= default_instance());
    connect_to_unified_service_instance(service_name, DEFAULT_SERVICE_INSTANCE)
}

} // verus!
