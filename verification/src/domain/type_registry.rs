//! Type definitions, kept outside of the graph.
//!
//! Types are not nodes. They are held in a registry that is asked during
//! traversal for what a signature refers to.

use crate::domain::node::{ContextFragment, FragmentView};
use crate::domain::score::Score;
use crate::domain::symbol_table::SymbolTable;
use crate::domain::text;
use vstd::prelude::*;

verus! {

/// Language-agnostic classification of types.
#[derive(Debug, Clone, Copy, PartialEq, Eq, Structural)]
pub enum TypeKind {
    Class,
    /// Interface, protocol or trait.
    Interface,
    Struct,
    Enum,
    TypeAlias,
    FunctionType,
    Union,
    Intersection,
    /// Generic type parameter.
    TypeVar,
}

/// What limits a generic type parameter.
#[derive(Debug, Clone)]
pub struct TypeVarInfo {
    pub bound: Option<TypeId>,
    pub constraints: Vec<TypeId>,
}

impl TypeVarInfo {
    /// A type variable says something about its values if it has a bound or constraints.
    pub open spec fn spec_is_effectively_typed(&self) -> bool {
        self.bound is Some || self.constraints@.len() > 0
    }

    #[verifier::when_used_as_spec(spec_is_effectively_typed)]
    pub fn is_effectively_typed(&self) -> (r: bool)
        ensures
            r == self.spec_is_effectively_typed(),
    {
        self.bound.is_some() || !self.constraints.is_empty()
    }
}

/// Attributes of a type definition.
#[derive(Debug, Clone)]
pub struct TypeDefAttribute {
    pub type_kind: TypeKind,
    pub is_abstract: bool,
    pub type_param_count: u32,
    pub type_var_info: Option<TypeVarInfo>,
}

/// Type identifier (symbol string).
pub type TypeId = String;

/// What the registry holds of a type.
#[derive(Debug, Clone)]
pub struct TypeInfo {
    pub definition: TypeDefAttribute,
    /// Context size of the type definition.
    pub context_size: u32,
    /// Surface that must be loaded when the type participates in a contract.
    pub surface_fragment: ContextFragment,
    /// Documentation score of the type.
    pub doc_score: Score,
    pub documentation: Vec<String>,
}

impl TypeInfo {
    pub open spec fn spec_is_type_var(&self) -> bool {
        self.definition.type_kind == TypeKind::TypeVar
    }

    #[verifier::when_used_as_spec(spec_is_type_var)]
    pub fn is_type_var(&self) -> (r: bool)
        ensures
            r == self.spec_is_type_var(),
    {
        self.definition.type_kind == TypeKind::TypeVar
    }
}

/// All type definitions by identifier, and for each interface its implementors.
pub struct TypeRegistry {
    types: SymbolTable<TypeInfo>,
    implementors: SymbolTable<Vec<TypeId>>,
}

impl View for TypeRegistry {
    type V = Map<Seq<char>, TypeInfo>;

    closed spec fn view(&self) -> Map<Seq<char>, TypeInfo> {
        self.types@
    }
}

impl TypeRegistry {
    pub closed spec fn wf(&self) -> bool {
        self.types.wf() && self.implementors.wf()
    }

    /// The identifiers in order of first registration.
    pub closed spec fn ids(&self) -> Seq<Seq<char>> {
        self.types.symbols()
    }

    /// The implementors that were registered for each interface, in order.
    pub closed spec fn implementor_map(&self) -> Map<Seq<char>, Seq<Seq<char>>> {
        self.implementors@.map_values(|ids: Vec<TypeId>| text::texts(ids@))
    }

    /// The identifiers list every registered type once.
    pub proof fn law_types_are_listed_once(&self)
        requires
            self.wf(),
        ensures
            self.ids().no_duplicates(),
            forall|i: int|
                #![trigger self.ids()[i]]
                0 <= i < self.ids().len() ==> self@.contains_key(self.ids()[i]),
            forall|id: Seq<char>| #[trigger] self@.contains_key(id) ==> self.ids().contains(id),
    {
        self.types.lemma_symbols();
    }

    /// There are finitely many types.
    pub proof fn lemma_finite(&self)
        requires
            self.wf(),
        ensures
            self@.dom().finite(),
    {
        self.law_types_are_listed_once();
        let ids = self.ids();
        assert(self@.dom() =~= ids.to_set()) by {
            assert forall|id: Seq<char>| #[trigger]
                ids.to_set().contains(id) implies self@.dom().contains(id) by {
                let i = choose|i: int| 0 <= i < ids.len() && ids[i] == id;
                assert(self@.contains_key(ids[i]));
            }
            assert forall|id: Seq<char>| #[trigger]
                self@.dom().contains(id) implies ids.to_set().contains(id) by {
                assert(self@.contains_key(id));
            }
        }
    }

    /// An empty registry.
    pub fn new() -> (r: Self)
        ensures
            r.wf(),
            r@ == Map::<Seq<char>, TypeInfo>::empty(),
            r.ids() == Seq::<Seq<char>>::empty(),
            r.implementor_map() == Map::<Seq<char>, Seq<Seq<char>>>::empty(),
    {
        let r = TypeRegistry { types: SymbolTable::new(), implementors: SymbolTable::new() };
        assert(r.implementor_map() =~= Map::<Seq<char>, Seq<Seq<char>>>::empty());
        r
    }

    /// Registers a type, in place of an earlier one of the same identifier.
    pub fn register(&mut self, type_id: TypeId, info: TypeInfo)
        requires
            old(self).wf(),
        ensures
            final(self).wf(),
            final(self)@ == old(self)@.insert(type_id@, info),
            final(self).ids() == if old(self)@.contains_key(type_id@) {
                old(self).ids()
            } else {
                old(self).ids().push(type_id@)
            },
            final(self).implementor_map() == old(self).implementor_map(),
    {
        self.types.insert(type_id, info);
    }

    pub fn get(&self, type_id: &str) -> (r: Option<&TypeInfo>)
        requires
            self.wf(),
        ensures
            match r {
                Some(info) => self@.contains_key(type_id@) && *info == self@[type_id@],
                None => !self@.contains_key(type_id@),
            },
    {
        self.types.get(type_id)
    }

    pub fn contains(&self, type_id: &str) -> (r: bool)
        ensures
            r == self@.contains_key(type_id@),
    {
        self.types.contains_key(type_id)
    }

    /// All identifiers in order of first registration.
    pub fn type_ids(&self) -> (r: Vec<TypeId>)
        requires
            self.wf(),
        ensures
            text::texts(r@) == self.ids(),
    {
        let mut r: Vec<TypeId> = Vec::new();
        let n: usize = self.types.len();
        let mut i: usize = 0;
        while i < n
            invariant
                self.wf(),
                n == self.ids().len(),
                i <= n,
                text::texts(r@) == self.ids().take(i as int),
            decreases n - i,
        {
            let key = self.types.key_at(i).clone();
            let ghost before = text::texts(r@);
            r.push(key);
            i += 1;
            assert(text::texts(r@) =~= before.push(key@));
            assert(self.ids().take(i as int) =~= before.push(self.ids()[i - 1]));
        }
        assert(self.ids().take(n as int) =~= self.ids());
        r
    }

    pub fn get_mut(&mut self, type_id: &str) -> (r: Option<&mut TypeInfo>)
        requires
            old(self).wf(),
        ensures
            final(self).wf(),
            final(self).ids() == old(self).ids(),
            final(self).implementor_map() == old(self).implementor_map(),
            r is Some <==> old(self)@.contains_key(type_id@),
            match r {
                Some(info) => *info == old(self)@[type_id@] && final(self)@ == old(self)@.insert(
                    type_id@,
                    *final(info),
                ),
                None => *final(self) == *old(self),
            },
    {
        self.types.get_mut(type_id)
    }

    /// Count of registered types.
    pub fn len(&self) -> (n: usize)
        ensures
            n == self.ids().len(),
    {
        self.types.len()
    }

    pub fn is_empty(&self) -> (r: bool)
        ensures
            r == (self.ids().len() == 0),
    {
        self.types.is_empty()
    }

    /// Adds an implementor to the end of the list of an interface.
    pub fn register_implementor(&mut self, interface_id: TypeId, concrete_id: TypeId)
        requires
            old(self).wf(),
        ensures
            final(self).wf(),
            final(self)@ == old(self)@,
            final(self).ids() == old(self).ids(),
            final(self).implementor_map() == old(self).implementor_map().insert(
                interface_id@,
                (if old(self).implementor_map().contains_key(interface_id@) {
                    old(self).implementor_map()[interface_id@]
                } else {
                    Seq::empty()
                }).push(concrete_id@),
            ),
    {
        match self.implementors.get_mut(interface_id.as_str()) {
            Some(list) => {
                let ghost before = text::texts(list@);
                list.push(concrete_id);
                assert(text::texts(list@) =~= before.push(concrete_id@));
            },
            None => {
                let mut list: Vec<TypeId> = Vec::new();
                list.push(concrete_id);
                assert(text::texts(list@) =~= Seq::<Seq<char>>::empty().push(concrete_id@));
                self.implementors.insert(interface_id, list);
            },
        }
        assert(self.implementor_map() =~= old(self).implementor_map().insert(
            interface_id@,
            (if old(self).implementor_map().contains_key(interface_id@) {
                old(self).implementor_map()[interface_id@]
            } else {
                Seq::empty()
            }).push(concrete_id@),
        ));
    }

    pub fn get_implementors(&self, interface_id: &str) -> (r: Option<&Vec<TypeId>>)
        requires
            self.wf(),
        ensures
            match r {
                Some(list) => self.implementor_map().contains_key(interface_id@) && text::texts(list@)
                    == self.implementor_map()[interface_id@],
                None => !self.implementor_map().contains_key(interface_id@),
            },
    {
        self.implementors.get(interface_id)
    }
}

impl Default for TypeRegistry {
    fn default() -> (r: Self)
        ensures
            r.wf(),
            r@ == Map::<Seq<char>, TypeInfo>::empty(),
            r.ids() == Seq::<Seq<char>>::empty(),
            r.implementor_map() == Map::<Seq<char>, Seq<Seq<char>>>::empty(),
    {
        Self::new()
    }
}

/// A type as a value of the specification.
#[verifier::ext_equal]
pub struct TypeInfoView {
    pub type_kind: TypeKind,
    pub is_abstract: bool,
    pub type_param_count: u32,
    pub type_var: Option<TypeVarView>,
    pub context_size: u32,
    pub surface_fragment: FragmentView,
    pub doc_score: Score,
    pub documentation: Seq<Seq<char>>,
}

/// What limits a type parameter, as a value of the specification.
#[verifier::ext_equal]
pub struct TypeVarView {
    pub bound: Option<Seq<char>>,
    pub constraints: Seq<Seq<char>>,
}

impl View for TypeVarInfo {
    type V = TypeVarView;

    open spec fn view(&self) -> TypeVarView {
        TypeVarView {
            bound: text::optional_text(self.bound),
            constraints: text::texts(self.constraints@),
        }
    }
}

impl View for TypeInfo {
    type V = TypeInfoView;

    open spec fn view(&self) -> TypeInfoView {
        TypeInfoView {
            type_kind: self.definition.type_kind,
            is_abstract: self.definition.is_abstract,
            type_param_count: self.definition.type_param_count,
            type_var: match self.definition.type_var_info {
                Some(limits) => Some(limits@),
                None => None,
            },
            context_size: self.context_size,
            surface_fragment: self.surface_fragment@,
            doc_score: self.doc_score,
            documentation: text::texts(self.documentation@),
        }
    }
}

} // verus!
