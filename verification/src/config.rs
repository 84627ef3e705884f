//! The resolved, immutable run configuration that the classifier and the
//! query builder consume.  Connection parameters and the interactive loading
//! of the file live outside this crate.

use vstd::prelude::*;

verus! {

/// The caller-supplied configuration: the remote fields to request, the board
/// and project identifiers, the component list, and the status groups.  The
/// literal `"*"` in `components` is the catch-all component; a `"*"` anywhere
/// in an inner status list makes that list match every status.
pub struct Config {
    pub fields: Vec<String>,
    pub board: Option<String>,
    pub project: Option<String>,
    pub components: Vec<String>,
    pub status_tables: Vec<Vec<String>>,
}

/// Spec-level image of a [`Config`].
#[verifier::ext_equal]
pub struct ConfigView {
    pub fields: Seq<Seq<char>>,
    pub board: Option<Seq<char>>,
    pub project: Option<Seq<char>>,
    pub components: Seq<Seq<char>>,
    pub status_tables: Seq<Seq<Seq<char>>>,
}

impl View for Config {
    type V = ConfigView;

    open spec fn view(&self) -> ConfigView {
        ConfigView {
            fields: self.fields.deep_view(),
            board: self.board.deep_view(),
            project: self.project.deep_view(),
            components: self.components.deep_view(),
            status_tables: self.status_tables.deep_view(),
        }
    }
}

/// The fields, components and status groups used when the configuration file
/// provides none.
pub open spec fn spec_default_config() -> ConfigView {
    ConfigView {
        fields: seq!["summary"@, "status"@, "components"@, "issuetype"@],
        board: None,
        project: None,
        components: seq!["*"@],
        status_tables: seq![seq!["Done"@], seq!["Review"@, "In progress"@, "Ready"@, "To do"@]],
    }
}

impl Default for Config {
    /// The default configuration: the four display fields, no board or
    /// project, the catch-all component alone, and two status groups.
    fn default() -> (res: Self)
        ensures
            res@ == spec_default_config(),
    {
        let mut fields: Vec<String> = Vec::new();
        fields.push(String::from_str("summary"));
        fields.push(String::from_str("status"));
        fields.push(String::from_str("components"));
        fields.push(String::from_str("issuetype"));
        let mut components: Vec<String> = Vec::new();
        components.push(String::from_str("*"));
        let mut done: Vec<String> = Vec::new();
        done.push(String::from_str("Done"));
        let mut open_states: Vec<String> = Vec::new();
        open_states.push(String::from_str("Review"));
        open_states.push(String::from_str("In progress"));
        open_states.push(String::from_str("Ready"));
        open_states.push(String::from_str("To do"));
        let mut status_tables: Vec<Vec<String>> = Vec::new();
        status_tables.push(done);
        status_tables.push(open_states);
        let res = Config { fields, board: None, project: None, components, status_tables };
        proof {
            assert(res@.fields =~~= spec_default_config().fields);
            assert(res@.components =~~= spec_default_config().components);
            assert(res@.status_tables =~~= spec_default_config().status_tables);
            assert(res@ =~~= spec_default_config());
        }
        res
    }
}

/// A fatal configuration error: the run cannot proceed without a board and a
/// project identifier.
#[derive(Clone, Copy, PartialEq, Eq, Debug)]
pub enum ConfigError {
    MissingBoard,
    MissingProject,
}

} // verus!
