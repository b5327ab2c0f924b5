use vstd::prelude::*;

use crate::components::{CompView, Id, Q3Components};
use crate::error::Q3Error;
use crate::generator::{Generator, GeneratorView};
use crate::list::{List, ListView};
use crate::parser::{all_literal, parse_spec};
use crate::query::Query;
use crate::store::QStore;

verus! {

/// What a configuration names a query: its source text.
#[derive(Debug, Clone, PartialEq)]
pub struct QueryConfig {
    pub value: String,
}

/// A list's data: text given in place, or the path of a file whose
/// contents the loader reads before the core sees the configuration.
#[derive(Debug, Clone, PartialEq)]
pub enum PathOrValue {
    File(String),
    Value(String),
}

/// What a configuration names a list: its data, the separator that cuts
/// it into elements, and an optional transform script.
#[derive(Debug, Clone, PartialEq)]
pub struct ListConfig {
    pub data: PathOrValue,
    pub separator: String,
    pub script: Option<String>,
}

/// What a configuration names a generator: its script.
#[derive(Debug, Clone, PartialEq)]
pub struct GeneratorConfig {
    pub script: String,
}

/// One fragment specification of a configuration.
#[derive(Debug, Clone, PartialEq)]
pub enum ConfigElement {
    Query(QueryConfig),
    List(ListConfig),
    Generator(GeneratorConfig),
}

/// One named entry of a configuration.
#[derive(Debug, Clone, PartialEq)]
pub struct ConfigEntry {
    pub name: String,
    pub element: ConfigElement,
}

/// A whole configuration: named fragment specifications in file order.
#[derive(Debug, Clone, PartialEq)]
pub struct Config(pub Vec<ConfigEntry>);

/// The component that one configuration entry gives rise to: a query is
/// parsed under its name, a list starts raw with its given data, a
/// generator starts with no value.
pub open spec fn entry_matches(e: ConfigEntry, c: CompView) -> bool {
    match e.element {
        ConfigElement::Query(q) => {
            &&& c matches CompView::Query(qv)
            &&& qv.spec_id() == e.name@
            &&& qv.query_text() == q.value@
            &&& qv.tokens() == parse_spec(q.value@)
            &&& (qv is Expanded <==> all_literal(parse_spec(q.value@)))
        },
        ConfigElement::List(l) => {
            &&& c matches CompView::List(lv)
            &&& lv matches ListView::Raw { id, separator, value, script }
            &&& id == e.name@
            &&& separator == l.separator@
            &&& (l.data matches PathOrValue::Value(v) && value == v@)
            &&& script == (match l.script {
                Some(s) => Some(s@),
                None => None,
            })
        },
        ConfigElement::Generator(g) => c == CompView::Generator(
            GeneratorView { id: e.name@, script: g.script@, value: None },
        ),
    }
}

impl QStore {
    /// Build a store from a configuration, one component per entry and
    /// in the same order. The loader has already read any file-backed
    /// list data and guarantees distinct names.
    pub fn from_config(config: Config) -> (r: Result<QStore, Q3Error>)
        requires
            forall|i: int, j: int|
                0 <= i < j < config.0@.len() ==> config.0@[i].name@ != config.0@[j].name@,
            forall|i: int|
                0 <= i < config.0@.len() ==> ((#[trigger] config.0@[i].element) matches
                    ConfigElement::List(l) ==> l.data is Value),
        ensures
            r is Ok,
            r matches Ok(s) ==> {
                &&& s@.wf()
                &&& s@.failed == Seq::<Seq<char>>::empty()
                &&& s@.components.len() == config.0@.len()
                &&& forall|i: int|
                    0 <= i < config.0@.len() ==> entry_matches(
                        config.0@[i],
                        #[trigger] s@.components[i],
                    )
            },
    {
        let mut store = QStore::new();
        let n = config.0.len();
        let mut k: usize = 0;
        while k < n
            invariant
                n == config.0@.len(),
                k <= n,
                forall|i: int, j: int|
                    0 <= i < j < config.0@.len() ==> config.0@[i].name@ != config.0@[j].name@,
                forall|i: int|
                    0 <= i < config.0@.len() ==> ((#[trigger] config.0@[i].element) matches
                        ConfigElement::List(l) ==> l.data is Value),
                store@.wf(),
                store@.failed == Seq::<Seq<char>>::empty(),
                store@.components.len() == k,
                forall|i: int|
                    0 <= i < k ==> entry_matches(config.0@[i], #[trigger] store@.components[i]),
                forall|i: int|
                    0 <= i < k ==> (#[trigger] store@.components[i]).spec_id()
                        == config.0@[i].name@,
            decreases n - k,
        {
            let entry = &config.0[k];
            let component = match &entry.element {
                ConfigElement::Query(q) => {
                    match Query::new(entry.name.as_str(), q.value.as_str()) {
                        Ok(parsed) => Q3Components::Query(parsed),
                        Err(e) => {
                            return Err(e);
                        },
                    }
                },
                ConfigElement::List(l) => {
                    let value = match &l.data {
                        PathOrValue::Value(v) => v.clone(),
                        PathOrValue::File(_path) => {
                            return Err(Q3Error::FailedToParseQuery);
                        },
                    };
                    Q3Components::List(
                        List::Raw {
                            id: Id(entry.name.clone()),
                            separator: l.separator.clone(),
                            value,
                            script: match &l.script {
                                Some(s) => Some(s.clone()),
                                None => None,
                            },
                        },
                    )
                },
                ConfigElement::Generator(g) => Q3Components::Generator(
                    Generator { id: Id(entry.name.clone()), script: g.script.clone(), value: None },
                ),
            };
            proof {
                assert(component@.spec_id() == config.0@[k as int].name@);
                if store@.has_id(component@.spec_id()) {
                    let i = choose|i: int|
                        0 <= i < store@.components.len() && #[trigger] store@.components[i].spec_id()
                            == component@.spec_id();
                    assert(config.0@[i].name@ == config.0@[k as int].name@);
                    assert(false);
                }
            }
            store.insert(component);
            k = k + 1;
        }
        Ok(store)
    }
}

} // verus!
