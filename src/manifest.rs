use crate::text::push_str;
use vstd::prelude::*;
use vstd::string::StrSliceExecFns;

verus! {

/// Declares `serde_json::Value`, which holds the parts of a schema document that this
/// library passes through without reading them.
#[verifier::external_type_specification]
#[verifier::external_body]
pub struct ExJsonValue(serde_json::Value);

/// The path reached by pushing the relative path `rel` onto `base`: an absolute `rel`
/// replaces `base`, otherwise the two are joined by a single separator.
pub open spec fn joined(base: Seq<char>, rel: Seq<char>) -> Seq<char> {
    if rel.len() > 0 && rel[0] == '/' {
        rel
    } else if base.len() == 0 {
        rel
    } else if base.last() == '/' {
        base + rel
    } else {
        base + seq!['/'] + rel
    }
}

/// Joins `rel` onto `base` as a path.
pub fn join_path(base: &String, rel: &String) -> (r: String)
    ensures
        r@ == joined(base@, rel@),
{
    let rl = rel.as_str().unicode_len();
    if rl > 0 && rel.as_str().get_char(0) == '/' {
        return rel.clone();
    }
    let bl = base.as_str().unicode_len();
    if bl == 0 {
        return rel.clone();
    }
    let mut out = base.clone();
    if base.as_str().get_char(bl - 1) != '/' {
        proof {
            reveal_strlit("/");
        }
        push_str(&mut out, "/");
    }
    push_str(&mut out, rel.as_str());
    out
}

/// A ShEx schema document in its JSON form.
#[derive(Debug)]
pub struct Schema {
    pub context: String,
    pub type_: String,
    pub imports: Option<Vec<String>>,
    pub start: Option<serde_json::Value>,
    pub start_acts: Option<serde_json::Value>,
    pub shapes: Option<serde_json::Value>,
}

impl Schema {
    /// Where the schema document named `schema_name` is found relative to the directory
    /// `base`; the caller reads and parses the document there.
    pub fn parse_schema_name(schema_name: &String, base: &String) -> (r: String)
        ensures
            r@ == joined(base@, schema_name@),
    {
        join_path(base, schema_name)
    }
}

/// One entry of a schema manifest.
#[derive(Debug, Clone)]
pub struct SchemasEntry {
    pub id: String,
    pub type_: String,
    pub name: String,
    pub status: String,
    pub shex: String,
    pub json: String,
    pub ttl: String,
}

/// A named group of manifest entries.
#[derive(Debug)]
pub struct ManifestSchemasGraph {
    pub id: String,
    pub type_: String,
    pub comment: String,
    pub entries: Vec<SchemasEntry>,
}

/// A schema manifest: graphs of entries, each naming a schema document.
#[derive(Debug)]
pub struct ManifestSchemas {
    pub graph: Vec<ManifestSchemasGraph>,
}

/// Why an entry of a manifest could not be run.
#[derive(Debug, Clone, PartialEq, Eq)]
pub enum ManifestError {
    ReadingPathError { path_name: String, error: String },
    JsonError { path_name: String, error: String },
}

/// What a manifest run asks for next.
#[derive(Debug, PartialEq, Eq)]
pub enum RunStep {
    /// Read and parse the JSON schema at `path`, for the entry at position `index`.
    Check { index: usize, path: String },
    /// The run is over, with this outcome.
    Done(Result<(), ManifestError>),
}

impl SchemasEntry {
    /// Where the JSON form of this entry's schema lies, relative to `base`.
    pub fn json_path(&self, base: &String) -> (r: String)
        ensures
            r@ == joined(base@, self.json@),
    {
        join_path(base, &self.json)
    }
}

impl ManifestSchemas {
    /// One step of running the entries of the first graph in order, stopping at the first
    /// entry that fails. `checked` entries have been checked so far, and `last` holds the
    /// error of the latest one, if it failed.
    pub fn run(&self, base: &String, checked: usize, last: Option<ManifestError>) -> (r: RunStep)
        requires
            self.graph.len() > 0,
        ensures
            last matches Some(e) ==> r == RunStep::Done(Err::<(), ManifestError>(e)),
            last is None && checked < self.graph@[0].entries.len() ==> (r matches RunStep::Check {
                index,
                path,
            } && index == checked && path@ == joined(
                base@,
                self.graph@[0].entries@[checked as int].json@,
            )),
            last is None && checked >= self.graph@[0].entries.len() ==> r == RunStep::Done(
                Ok::<(), ManifestError>(()),
            ),
    {
        match last {
            Some(e) => RunStep::Done(Err(e)),
            None => {
                let entries = &self.graph[0].entries;
                if checked < entries.len() {
                    let path = entries[checked].json_path(base);
                    RunStep::Check { index: checked, path }
                } else {
                    RunStep::Done(Ok(()))
                }
            },
        }
    }
}

} // verus!
