//! The two-scope symbol table of the code generator.
use vstd::prelude::*;
use crate::parse_tree::{TypeV, VarKind, VarType};
use crate::text::str_eq;

verus! {

/// A variable known to the code generator.
pub struct Symbol {
    pub name: String,
    pub var_type: VarType,
    pub var_kind: VarKind,
    pub index: u32,
}

/// The mathematical value of a symbol.
pub struct SymbolV {
    pub name: Seq<char>,
    pub var_type: TypeV,
    pub var_kind: VarKind,
    pub index: nat,
}

impl View for Symbol {
    type V = SymbolV;

    open spec fn view(&self) -> SymbolV {
        SymbolV {
            name: self.name@,
            var_type: self.var_type@,
            var_kind: self.var_kind,
            index: self.index as nat,
        }
    }
}

/// The two scopes of a symbol table, each in order of definition.
pub struct Scopes {
    pub class_scope: Seq<SymbolV>,
    pub subroutine_scope: Seq<SymbolV>,
}

impl Scopes {
    /// The symbol that `name` stands for: the subroutine scope first, then the class scope.
    pub open spec fn lookup(self, name: Seq<char>) -> Option<SymbolV> {
        match scope_lookup(self.subroutine_scope, name) {
            Some(s) => Some(s),
            None => scope_lookup(self.class_scope, name),
        }
    }
}

pub open spec fn scope_view(scope: Seq<Symbol>) -> Seq<SymbolV> {
    scope.map_values(|s: Symbol| s@)
}

/// The class scope and the subroutine scope, each in order of definition.
/// A later definition of a name hides an earlier one of the same scope.
pub struct SymbolTable {
    pub class_scope: Vec<Symbol>,
    pub subroutine_scope: Vec<Symbol>,
}

/// The latest symbol named `name` in `scope`.
pub open spec fn scope_lookup(scope: Seq<SymbolV>, name: Seq<char>) -> Option<SymbolV>
    decreases scope.len(),
{
    if scope.len() == 0 {
        None
    } else if scope.last().name == name {
        Some(scope.last())
    } else {
        scope_lookup(scope.drop_last(), name)
    }
}

/// The VM segment of a variable kind.
pub open spec fn segment_of(k: VarKind) -> Seq<char> {
    match k {
        VarKind::Static => "static"@,
        VarKind::Field => "this"@,
        VarKind::Var => "local"@,
        VarKind::Arg => "argument"@,
    }
}

/// The position of the latest symbol named `name` in `scope`.
fn find(scope: &Vec<Symbol>, name: &str) -> (r: Option<usize>)
    ensures
        match r {
            Some(i) => i < scope@.len() && scope_lookup(scope_view(scope@), name@) == Some(
                scope@[i as int]@,
            ),
            None => scope_lookup(scope_view(scope@), name@) is None,
        },
{
    let mut i = scope.len();
    assert(scope_view(scope@.subrange(0, i as int)) == scope_view(scope@));
    while i > 0
        invariant
            i <= scope@.len(),
            scope_lookup(scope_view(scope@), name@) == scope_lookup(
                scope_view(scope@.subrange(0, i as int)),
                name@,
            ),
        decreases i,
    {
        let ghost pre = scope_view(scope@.subrange(0, i as int));
        assert(pre.drop_last() == scope_view(scope@.subrange(0, i - 1)));
        if str_eq(scope[i - 1].name.as_str(), name) {
            return Some(i - 1);
        }
        i -= 1;
    }
    None
}

impl View for SymbolTable {
    type V = Scopes;

    open spec fn view(&self) -> Scopes {
        Scopes {
            class_scope: scope_view(self.class_scope@),
            subroutine_scope: scope_view(self.subroutine_scope@),
        }
    }
}

impl SymbolTable {
    pub fn new() -> (r: SymbolTable)
        ensures
            r@.class_scope.len() == 0,
            r@.subroutine_scope.len() == 0,
    {
        SymbolTable { class_scope: Vec::new(), subroutine_scope: Vec::new() }
    }

    /// The symbol that `name` stands for: the subroutine scope first, then the class scope.
    pub open spec fn lookup(&self, name: Seq<char>) -> Option<SymbolV> {
        self@.lookup(name)
    }

    /// Defines a variable: statics and fields in the class scope, arguments and
    /// locals in the subroutine scope.
    pub fn define(&mut self, name: &String, var_type: &VarType, var_kind: &VarKind, index: u32)
        ensures
            ({
                let s = SymbolV {
                    name: name@,
                    var_type: var_type@,
                    var_kind: *var_kind,
                    index: index as nat,
                };
                if *var_kind == VarKind::Static || *var_kind == VarKind::Field {
                    &&& final(self)@.class_scope == old(self)@.class_scope.push(s)
                    &&& final(self)@.subroutine_scope == old(self)@.subroutine_scope
                } else {
                    &&& final(self)@.subroutine_scope == old(self)@.subroutine_scope.push(s)
                    &&& final(self)@.class_scope == old(self)@.class_scope
                }
            }),
    {
        let symbol = Symbol {
            name: name.clone(),
            var_type: var_type.duplicate(),
            var_kind: *var_kind,
            index,
        };
        let ghost sv = symbol@;
        match var_kind {
            VarKind::Static | VarKind::Field => {
                self.class_scope.push(symbol);
                assert(self@.class_scope =~= old(self)@.class_scope.push(sv));
            },
            VarKind::Var | VarKind::Arg => {
                self.subroutine_scope.push(symbol);
                assert(self@.subroutine_scope =~= old(self)@.subroutine_scope.push(sv));
            },
        }
    }

    fn get(&self, name: &str) -> (r: Option<&Symbol>)
        ensures
            match r {
                Some(s) => self.lookup(name@) == Some(s@),
                None => self.lookup(name@) is None,
            },
    {
        match find(&self.subroutine_scope, name) {
            Some(i) => Some(&self.subroutine_scope[i]),
            None => match find(&self.class_scope, name) {
                Some(i) => Some(&self.class_scope[i]),
                None => None,
            },
        }
    }

    /// The type of the variable `name`, if it is defined.
    pub fn get_var_type(&self, name: &str) -> (r: Option<&VarType>)
        ensures
            match r {
                Some(t) => self.lookup(name@) is Some && self.lookup(name@)->0.var_type == t@,
                None => self.lookup(name@) is None,
            },
    {
        match self.get(name) {
            Some(s) => Some(&s.var_type),
            None => None,
        }
    }

    /// The VM segment of the variable `name`, if it is defined.
    pub fn get_var_kind(&self, name: &str) -> (r: Option<&'static str>)
        ensures
            match r {
                Some(seg) => self.lookup(name@) is Some && seg@ == segment_of(
                    self.lookup(name@)->0.var_kind,
                ),
                None => self.lookup(name@) is None,
            },
    {
        match self.get(name) {
            Some(s) => Some(segment_name(s.var_kind)),
            None => None,
        }
    }

    /// The index of the variable `name` in its segment, if it is defined.
    pub fn get_var_index(&self, name: &str) -> (r: Option<u32>)
        ensures
            match r {
                Some(i) => self.lookup(name@) is Some && self.lookup(name@)->0.index == i as nat,
                None => self.lookup(name@) is None,
            },
    {
        match self.get(name) {
            Some(s) => Some(s.index),
            None => None,
        }
    }

    /// Whether `name` is defined in either scope.
    pub fn contains(&self, name: &str) -> (r: bool)
        ensures
            r == (self.lookup(name@) is Some),
    {
        self.get(name).is_some()
    }

    /// Forgets the variables of the subroutine scope.
    pub fn clear_subroutine_scope(&mut self)
        ensures
            final(self)@.subroutine_scope.len() == 0,
            final(self)@.class_scope == old(self)@.class_scope,
    {
        self.subroutine_scope.clear();
    }
}

/// The VM segment of a variable kind.
pub fn segment_name(k: VarKind) -> (r: &'static str)
    ensures
        r@ == segment_of(k),
{
    match k {
        VarKind::Static => "static",
        VarKind::Field => "this",
        VarKind::Var => "local",
        VarKind::Arg => "argument",
    }
}

} // verus!
