//! Datasets: named collections of structured data fields. The mechanism is
//! a stub — rows are never consumed — but dataset definitions are parsed
//! and collected under the same name-uniqueness rules as the libraries.

use vstd::prelude::*;
use crate::dom::{Element, ElemModel, Node, NodeModel, lemma_nodes_model, nodes_model};
use crate::library::LibraryError;
use crate::names::NameMap;
use crate::reserved::{name_attr, required_attr, type_attr};
use crate::strutil::str_eq;

verus! {

/// The type a dataset field can carry.
pub enum FieldType {
    String,
    Fragment,
}

/// A value of a dataset field.
pub enum FieldValue {
    String(String),
    Fragment(Element),
}

/// The mathematical model of a `FieldValue`.
#[verifier::ext_equal]
pub enum FieldValueModel {
    String(Seq<char>),
    Fragment(ElemModel),
}

impl View for FieldValue {
    type V = FieldValueModel;

    open spec fn view(&self) -> FieldValueModel {
        match self {
            FieldValue::String(s) => FieldValueModel::String(s@),
            FieldValue::Fragment(e) => FieldValueModel::Fragment(e@),
        }
    }
}

/// One declared field of a dataset.
pub struct Field {
    pub name: String,
    pub required: bool,
    pub field_type: FieldType,
    pub default: Option<FieldValue>,
}

/// The mathematical model of a `Field`.
#[verifier::ext_equal]
pub struct FieldModel {
    pub name: Seq<char>,
    pub required: bool,
    pub field_type: FieldType,
    pub default: Option<FieldValueModel>,
}

impl View for Field {
    type V = FieldModel;

    open spec fn view(&self) -> FieldModel {
        FieldModel {
            name: self.name@,
            required: self.required,
            field_type: self.field_type,
            default: match &self.default {
                Some(v) => Some(v@),
                None => None,
            },
        }
    }
}

/// A set of structured data, under a unique name.
pub struct Dataset {
    pub name: String,
    pub fields: NameMap<Field>,
}

/// The mathematical model of a `Dataset`.
#[verifier::ext_equal]
pub struct DatasetModel {
    pub name: Seq<char>,
    pub fields: Map<Seq<char>, FieldModel>,
}

impl View for Dataset {
    type V = DatasetModel;

    open spec fn view(&self) -> DatasetModel {
        DatasetModel { name: self.name@, fields: self.fields@ }
    }
}

/// The boolean an attribute value denotes, if any.
pub open spec fn bool_attr(v: Seq<char>) -> Option<bool> {
    if v == "true"@ {
        Some(true)
    } else if v == "false"@ {
        Some(false)
    } else {
        None
    }
}

/// The field one child element declares: it must carry a name, a valid
/// type, and — when marked at all — a boolean requiredness.
pub open spec fn spec_field_of(c: ElemModel) -> Option<FieldModel> {
    match c.attr(name_attr()) {
        None => None,
        Some(n) => {
            let req = match c.attr(required_attr()) {
                None => Some(false),
                Some(v) => bool_attr(v),
            };
            match req {
                None => None,
                Some(required) => match c.attr(type_attr()) {
                    None => None,
                    Some(t) => if t == "string"@ {
                        Some(
                            FieldModel {
                                name: n,
                                required,
                                field_type: FieldType::String,
                                default: None,
                            },
                        )
                    } else if t == "fragment"@ {
                        Some(
                            FieldModel {
                                name: n,
                                required,
                                field_type: FieldType::Fragment,
                                default: None,
                            },
                        )
                    } else {
                        None
                    },
                },
            }
        },
    }
}

/// The fields declared by a dataset root's children, in document order:
/// an invalid declaration is skipped, and the first declaration of a name
/// wins.
pub open spec fn spec_fields(children: Seq<NodeModel>) -> Map<Seq<char>, FieldModel>
    decreases children.len(),
{
    if children.len() == 0 {
        Map::empty()
    } else {
        let m = spec_fields(children.drop_last());
        match children.last() {
            NodeModel::Text(_) => m,
            NodeModel::Elem(c) => match spec_field_of(c) {
                None => m,
                Some(f) => if m.contains_key(f.name) {
                    m
                } else {
                    m.insert(f.name, f)
                },
            },
        }
    }
}

/// The dataset collection described by a sequence of parsed roots, under
/// first-wins name uniqueness.
pub open spec fn spec_dataset_library(roots: Seq<ElemModel>) -> Map<Seq<char>, DatasetModel>
    decreases roots.len(),
{
    if roots.len() == 0 {
        Map::empty()
    } else {
        let m = spec_dataset_library(roots.drop_last());
        match roots.last().attr(name_attr()) {
            None => m,
            Some(n) => if m.contains_key(n) {
                m
            } else {
                m.insert(n, DatasetModel { name: n, fields: spec_fields(roots.last().children) })
            },
        }
    }
}

impl Dataset {
    /// Accepts a parsed root element as a dataset when it declares a name
    /// not already in use, collecting its valid field declarations.
    fn new(element: &Element, datasets: &NameMap<Dataset>) -> (r: Result<Dataset, LibraryError>)
        ensures
            match element@.attr(name_attr()) {
                None => r matches Err(LibraryError::MissingName),
                Some(n) => if datasets@.contains_key(n) {
                    r matches Err(LibraryError::DuplicateName(m)) && m@ == n
                } else {
                    r matches Ok(d) && d@.name == n && d@.fields == spec_fields(
                        element@.children,
                    )
                },
            },
    {
        let name = match element.attr("oeuvre-name") {
            None => {
                return Err(LibraryError::MissingName);
            },
            Some(attr_value) => attr_value.clone(),
        };
        if datasets.contains_key(name.as_str()) {
            return Err(LibraryError::DuplicateName(name));
        }
        let ghost cs = element@.children;
        let mut fields: NameMap<Field> = NameMap::new();
        proof {
            lemma_nodes_model(element.children@);
            assert(cs == nodes_model(element.children@));
            assert(cs.take(0) =~= Seq::<NodeModel>::empty());
            assert(cs.len() == element.children@.len());
            assert(forall|k: int| 0 <= k < cs.len() ==> cs[k] == element.children@[k]@);
        }
        let mut i: usize = 0;
        while i < element.children.len()
            invariant
                0 <= i <= element.children.len(),
                cs == element@.children,
                cs.len() == element.children@.len(),
                forall|k: int| 0 <= k < cs.len() ==> cs[k] == element.children@[k]@,
                fields@ == spec_fields(cs.take(i as int)),
            decreases element.children.len() - i,
        {
            proof {
                assert(cs.take(i as int + 1).drop_last() =~= cs.take(i as int));
                assert(cs.take(i as int + 1).last() == cs[i as int]);
            }
            match &element.children[i] {
                Node::Text(_) => {},
                Node::Elem(c) => {
                    match c.attr("oeuvre-name") {
                        None => {},
                        Some(field_name_value) => {
                            let field_name = field_name_value.clone();
                            if !fields.contains_key(field_name.as_str()) {
                                let required_known: Option<bool> = match c.attr(
                                    "oeuvre-required",
                                ) {
                                    None => Some(false),
                                    Some(v) => {
                                        if str_eq(v.as_str(), "true") {
                                            Some(true)
                                        } else if str_eq(v.as_str(), "false") {
                                            Some(false)
                                        } else {
                                            None
                                        }
                                    },
                                };
                                match required_known {
                                    None => {},
                                    Some(required) => {
                                        match c.attr("oeuvre-type") {
                                            None => {},
                                            Some(t) => {
                                                let known_type: Option<FieldType> = if str_eq(
                                                    t.as_str(),
                                                    "string",
                                                ) {
                                                    Some(FieldType::String)
                                                } else if str_eq(t.as_str(), "fragment") {
                                                    Some(FieldType::Fragment)
                                                } else {
                                                    None
                                                };
                                                match known_type {
                                                    None => {},
                                                    Some(field_type) => {
                                                        let key = field_name.clone();
                                                        fields.insert(
                                                            key,
                                                            Field {
                                                                name: field_name,
                                                                required,
                                                                field_type,
                                                                default: None,
                                                            },
                                                        );
                                                    },
                                                }
                                            },
                                        }
                                    },
                                }
                            }
                        },
                    }
                },
            }
            i = i + 1;
        }
        proof {
            assert(cs.take(element.children@.len() as int) =~= cs);
        }
        Ok(Dataset { name, fields })
    }

    /// Builds the dataset collection from parsed root elements, in load
    /// order, keyed by declared name; a root with no name, or with a name
    /// already taken, is skipped and the batch continues.
    pub fn load_many(roots: &Vec<Element>) -> (r: NameMap<Dataset>)
        ensures
            r@ == spec_dataset_library(roots@.map_values(|e: Element| e@)),
    {
        let ghost models = roots@.map_values(|e: Element| e@);
        let mut datasets: NameMap<Dataset> = NameMap::new();
        proof {
            assert(models.take(0) =~= Seq::<ElemModel>::empty());
        }
        let mut i: usize = 0;
        while i < roots.len()
            invariant
                0 <= i <= roots.len(),
                models == roots@.map_values(|e: Element| e@),
                models.len() == roots@.len(),
                datasets@ == spec_dataset_library(models.take(i as int)),
            decreases roots.len() - i,
        {
            proof {
                assert(models.take(i as int + 1).drop_last() =~= models.take(i as int));
                assert(models.take(i as int + 1).last() == models[i as int]);
                assert(models[i as int] == roots@[i as int]@);
            }
            match Dataset::new(&roots[i], &datasets) {
                Ok(dataset) => {
                    let key = dataset.name.clone();
                    datasets.insert(key, dataset);
                    proof {
                        assert(datasets@ =~= spec_dataset_library(models.take(i as int + 1)));
                    }
                },
                Err(_) => {},
            }
            i = i + 1;
        }
        proof {
            assert(models.take(roots@.len() as int) =~= models);
        }
        datasets
    }

    /// Data rows contribute no behavior in this system: the paths are
    /// accepted and nothing changes.
    pub fn load_rows(datarow_paths: &Vec<String>, datasets: &NameMap<Dataset>) {
        let _ = datarow_paths.len();
        let _ = datasets;
    }
}

} // verus!
