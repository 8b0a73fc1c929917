use vstd::prelude::*;

verus! {

/// One named application: one or more listening ports that share a single
/// ordered pool of backend target addresses in `"host:port"` form.
#[derive(Clone, Debug)]
pub struct App {
    pub name: String,
    pub ports: Vec<u16>,
    pub targets: Vec<String>,
}

/// Mathematical model of an [`App`]: plain sequences in place of the
/// executable containers.
pub ghost struct AppView {
    pub name: Seq<char>,
    pub ports: Seq<u16>,
    pub targets: Seq<Seq<char>>,
}

impl View for App {
    type V = AppView;

    open spec fn view(&self) -> AppView {
        AppView {
            name: self.name@,
            ports: self.ports@,
            targets: self.targets.deep_view(),
        }
    }
}

impl DeepView for App {
    type V = AppView;

    open spec fn deep_view(&self) -> AppView {
        self@
    }
}

impl AppView {
    /// An application the proxy can serve: at least one port to listen on
    /// and a non-empty target pool to balance over.
    pub open spec fn wf(self) -> bool {
        &&& self.ports.len() > 0
        &&& self.targets.len() > 0
    }
}

/// The already-validated configuration the core consumes: the list of
/// applications. Loading and parsing it from disk is an external
/// collaborator's job.
#[derive(Debug)]
pub struct Config {
    pub apps: Vec<App>,
}

impl View for Config {
    type V = Seq<AppView>;

    open spec fn view(&self) -> Seq<AppView> {
        self.apps.deep_view()
    }
}

/// An application list the proxy can start from: at least one
/// application, each of them well-formed.
pub open spec fn wf_apps(apps: Seq<AppView>) -> bool {
    &&& apps.len() > 0
    &&& forall|i: int| 0 <= i < apps.len() ==> (#[trigger] apps[i]).wf()
}

impl Config {
    /// A configuration the proxy can start from.
    pub open spec fn wf(self) -> bool {
        wf_apps(self@)
    }
}

} // verus!
