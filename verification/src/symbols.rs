//! The entries of a `symbols.txt` file: a name, an optional section, an
//! address and attributes for each symbol.
use vstd::prelude::*;

pub mod parser;
pub mod layout;

pub use parser::symbols as parser;

use crate::util::parser::literal_at;
use crate::util::parsing::{chars_of, debug_quoted, debug_text, with_quoted};

verus! {

/// Which kind of name a reader was asked for.
#[derive(Debug, Clone, Copy, PartialEq, Eq, Structural)]
pub enum NameKind {
    /// A symbol kind, as a `type:` attribute gives it.
    SymbolKind,
    /// A symbol scope, as a `scope:` attribute gives it.
    SymbolScope,
    /// A data kind, as a `data:` attribute gives it.
    DataKind,
}

/// A name that a `type:`, `scope:` or `data:` attribute does not know, as it
/// was written, and which kind of name it was meant to be.
#[derive(Debug, Clone, PartialEq, Eq)]
pub struct UnknownName {
    pub kind: NameKind,
    pub name: String,
}

/// How the message of an unknown name starts, for each kind of name.
pub open spec fn unknown_name_prefix(kind: NameKind) -> Seq<char> {
    match kind {
        NameKind::SymbolKind => "unknown symbol kind: "@,
        NameKind::SymbolScope => "unknown symbol scope: "@,
        NameKind::DataKind => "unknown obj data type: "@,
    }
}

impl UnknownName {
    /// What went wrong, in words: `unknown symbol kind: `, `unknown symbol
    /// scope: ` or `unknown obj data type: `, then the name quoted.
    pub fn message(&self) -> (res: String)
        ensures
            res@ == unknown_name_prefix(self.kind) + debug_text(self.name@),
    {
        let quoted = debug_quoted(self.name.as_str());
        match self.kind {
            NameKind::SymbolKind => with_quoted("unknown symbol kind: ", quoted.as_str()),
            NameKind::SymbolScope => with_quoted("unknown symbol scope: ", quoted.as_str()),
            NameKind::DataKind => with_quoted("unknown obj data type: ", quoted.as_str()),
        }
    }
}

/// What a symbol is.
#[derive(Debug, Copy, Clone, PartialEq, Eq, Structural)]
pub enum ObjSymbolKind {
    Unknown,
    Function,
    Object,
    Section,
}

impl Default for ObjSymbolKind {
    fn default() -> (res: Self)
        ensures
            res == ObjSymbolKind::Unknown,
    {
        ObjSymbolKind::Unknown
    }
}

/// How far a symbol is visible.
#[derive(Debug, Copy, Clone, PartialEq, Eq, Structural)]
pub enum ObjSymbolFlag {
    Common,
    Weak,
    Global,
    Local,
}

/// What a data symbol holds.
#[derive(Debug, Copy, Clone, PartialEq, Eq, Structural)]
pub enum ObjDataKind {
    Unknown,
    Byte,
    Byte2,
    Byte4,
    Byte8,
    Float,
    Double,
    String,
    ShiftJIS,
    String16,
    StringTable,
    ShiftJISTable,
    String16Table,
    Int,
    Short,
}

impl Default for ObjDataKind {
    fn default() -> (res: Self)
        ensures
            res == ObjDataKind::Unknown,
    {
        ObjDataKind::Unknown
    }
}

/// The symbol kind that a `type:` attribute names.
pub open spec fn spec_symbol_kind(s: Seq<char>) -> Option<ObjSymbolKind> {
    if s == seq!['l', 'a', 'b', 'e', 'l'] {
        Some(ObjSymbolKind::Unknown)
    } else if s == seq!['f', 'u', 'n', 'c', 't', 'i', 'o', 'n'] {
        Some(ObjSymbolKind::Function)
    } else if s == seq!['o', 'b', 'j', 'e', 'c', 't'] {
        Some(ObjSymbolKind::Object)
    } else if s == seq!['s', 'e', 'c', 't', 'i', 'o', 'n'] {
        Some(ObjSymbolKind::Section)
    } else {
        None
    }
}

/// The scope that a `scope:` attribute names.
pub open spec fn spec_symbol_flag(s: Seq<char>) -> Option<ObjSymbolFlag> {
    if s == seq!['c', 'o', 'm', 'm', 'o', 'n'] {
        Some(ObjSymbolFlag::Common)
    } else if s == seq!['w', 'e', 'a', 'k'] {
        Some(ObjSymbolFlag::Weak)
    } else if s == seq!['g', 'l', 'o', 'b', 'a', 'l'] {
        Some(ObjSymbolFlag::Global)
    } else if s == seq!['l', 'o', 'c', 'a', 'l'] {
        Some(ObjSymbolFlag::Local)
    } else {
        None
    }
}

/// The data kind that a `data:` attribute names.
pub open spec fn spec_data_kind(s: Seq<char>) -> Option<ObjDataKind> {
    if s == seq!['b', 'y', 't', 'e'] {
        Some(ObjDataKind::Byte)
    } else if s == seq!['2', 'b', 'y', 't', 'e'] {
        Some(ObjDataKind::Byte2)
    } else if s == seq!['4', 'b', 'y', 't', 'e'] {
        Some(ObjDataKind::Byte4)
    } else if s == seq!['8', 'b', 'y', 't', 'e'] {
        Some(ObjDataKind::Byte8)
    } else if s == seq!['f', 'l', 'o', 'a', 't'] {
        Some(ObjDataKind::Float)
    } else if s == seq!['d', 'o', 'u', 'b', 'l', 'e'] {
        Some(ObjDataKind::Double)
    } else if s == seq!['s', 't', 'r', 'i', 'n', 'g'] {
        Some(ObjDataKind::String)
    } else if s == seq!['s', 'j', 'i', 's'] {
        Some(ObjDataKind::ShiftJIS)
    } else if s == seq!['w', 's', 't', 'r', 'i', 'n', 'g'] {
        Some(ObjDataKind::String16)
    } else if s == seq!['s', 't', 'r', 'i', 'n', 'g', '_', 't', 'a', 'b', 'l', 'e'] {
        Some(ObjDataKind::StringTable)
    } else if s == seq!['s', 'j', 'i', 's', '_', 't', 'a', 'b', 'l', 'e'] {
        Some(ObjDataKind::ShiftJISTable)
    } else if s == seq!['w', 's', 't', 'r', 'i', 'n', 'g', '_', 't', 'a', 'b', 'l', 'e'] {
        Some(ObjDataKind::String16Table)
    } else if s == seq!['i', 'n', 't'] {
        Some(ObjDataKind::Int)
    } else if s == seq!['s', 'h', 'o', 'r', 't'] {
        Some(ObjDataKind::Short)
    } else {
        None
    }
}

/// Whether `s[start..end]` is exactly the word `lit`.
pub fn is_word(s: &[char], start: usize, end: usize, lit: &[char]) -> (res: bool)
    requires
        start <= end <= s@.len(),
    ensures
        res == (s@.subrange(start as int, end as int) == lit@),
{
    if end - start != lit.len() {
        assert(s@.subrange(start as int, end as int).len() != lit@.len());
        return false;
    }
    literal_at(s, start, lit)
}

impl ObjSymbolKind {
    /// The kind that `s[start..end]` names.
    pub fn from_chars(s: &[char], start: usize, end: usize) -> (res: Option<Self>)
        requires
            start <= end <= s@.len(),
        ensures
            res == spec_symbol_kind(s@.subrange(start as int, end as int)),
    {
        if is_word(s, start, end, &['l', 'a', 'b', 'e', 'l']) {
            Some(Self::Unknown)
        } else if is_word(s, start, end, &['f', 'u', 'n', 'c', 't', 'i', 'o', 'n']) {
            Some(Self::Function)
        } else if is_word(s, start, end, &['o', 'b', 'j', 'e', 'c', 't']) {
            Some(Self::Object)
        } else if is_word(s, start, end, &['s', 'e', 'c', 't', 'i', 'o', 'n']) {
            Some(Self::Section)
        } else {
            None
        }
    }

    /// The kind that `s` names: `label`, `function`, `object` or `section`.
    pub fn from_str(s: &str) -> (res: Result<Self, UnknownName>)
        ensures
            match res {
                Ok(k) => spec_symbol_kind(s@) == Some(k),
                Err(e) => spec_symbol_kind(s@) is None && e.kind == NameKind::SymbolKind && e.name@ == s@,
            },
    {
        let cs = chars_of(s);
        assert(cs@.subrange(0, cs@.len() as int) =~= cs@);
        match Self::from_chars(cs.as_slice(), 0, cs.len()) {
            Some(k) => Ok(k),
            None => Err(UnknownName { kind: NameKind::SymbolKind, name: s.to_owned() }),
        }
    }
}

impl ObjSymbolFlag {
    /// The scope that `s[start..end]` names.
    pub fn from_chars(s: &[char], start: usize, end: usize) -> (res: Option<Self>)
        requires
            start <= end <= s@.len(),
        ensures
            res == spec_symbol_flag(s@.subrange(start as int, end as int)),
    {
        if is_word(s, start, end, &['c', 'o', 'm', 'm', 'o', 'n']) {
            Some(Self::Common)
        } else if is_word(s, start, end, &['w', 'e', 'a', 'k']) {
            Some(Self::Weak)
        } else if is_word(s, start, end, &['g', 'l', 'o', 'b', 'a', 'l']) {
            Some(Self::Global)
        } else if is_word(s, start, end, &['l', 'o', 'c', 'a', 'l']) {
            Some(Self::Local)
        } else {
            None
        }
    }

    /// The scope that `s` names: `common`, `weak`, `global` or `local`.
    pub fn from_str(s: &str) -> (res: Result<Self, UnknownName>)
        ensures
            match res {
                Ok(f) => spec_symbol_flag(s@) == Some(f),
                Err(e) => spec_symbol_flag(s@) is None && e.kind == NameKind::SymbolScope && e.name@ == s@,
            },
    {
        let cs = chars_of(s);
        assert(cs@.subrange(0, cs@.len() as int) =~= cs@);
        match Self::from_chars(cs.as_slice(), 0, cs.len()) {
            Some(f) => Ok(f),
            None => Err(UnknownName { kind: NameKind::SymbolScope, name: s.to_owned() }),
        }
    }
}

impl ObjDataKind {
    /// The data kind that `s[start..end]` names.
    pub fn from_chars(s: &[char], start: usize, end: usize) -> (res: Option<Self>)
        requires
            start <= end <= s@.len(),
        ensures
            res == spec_data_kind(s@.subrange(start as int, end as int)),
    {
        if is_word(s, start, end, &['b', 'y', 't', 'e']) {
            Some(Self::Byte)
        } else if is_word(s, start, end, &['2', 'b', 'y', 't', 'e']) {
            Some(Self::Byte2)
        } else if is_word(s, start, end, &['4', 'b', 'y', 't', 'e']) {
            Some(Self::Byte4)
        } else if is_word(s, start, end, &['8', 'b', 'y', 't', 'e']) {
            Some(Self::Byte8)
        } else if is_word(s, start, end, &['f', 'l', 'o', 'a', 't']) {
            Some(Self::Float)
        } else if is_word(s, start, end, &['d', 'o', 'u', 'b', 'l', 'e']) {
            Some(Self::Double)
        } else if is_word(s, start, end, &['s', 't', 'r', 'i', 'n', 'g']) {
            Some(Self::String)
        } else if is_word(s, start, end, &['s', 'j', 'i', 's']) {
            Some(Self::ShiftJIS)
        } else if is_word(s, start, end, &['w', 's', 't', 'r', 'i', 'n', 'g']) {
            Some(Self::String16)
        } else if is_word(
            s,
            start,
            end,
            &['s', 't', 'r', 'i', 'n', 'g', '_', 't', 'a', 'b', 'l', 'e'],
        ) {
            Some(Self::StringTable)
        } else if is_word(s, start, end, &['s', 'j', 'i', 's', '_', 't', 'a', 'b', 'l', 'e']) {
            Some(Self::ShiftJISTable)
        } else if is_word(
            s,
            start,
            end,
            &['w', 's', 't', 'r', 'i', 'n', 'g', '_', 't', 'a', 'b', 'l', 'e'],
        ) {
            Some(Self::String16Table)
        } else if is_word(s, start, end, &['i', 'n', 't']) {
            Some(Self::Int)
        } else if is_word(s, start, end, &['s', 'h', 'o', 'r', 't']) {
            Some(Self::Short)
        } else {
            None
        }
    }

    /// The data kind that `s` names, such as `byte`, `2byte`, `string` or
    /// `sjis_table`.
    pub fn from_str(s: &str) -> (res: Result<Self, UnknownName>)
        ensures
            match res {
                Ok(d) => spec_data_kind(s@) == Some(d),
                Err(e) => spec_data_kind(s@) is None && e.kind == NameKind::DataKind && e.name@ == s@,
            },
    {
        let cs = chars_of(s);
        assert(cs@.subrange(0, cs@.len() as int) =~= cs@);
        match Self::from_chars(cs.as_slice(), 0, cs.len()) {
            Some(d) => Ok(d),
            None => Err(UnknownName { kind: NameKind::DataKind, name: s.to_owned() }),
        }
    }
}

/// A set of symbol scopes.
#[derive(Debug, Copy, Clone)]
pub struct ObjSymbolFlags {
    common: bool,
    weak: bool,
    global: bool,
    local: bool,
}

impl View for ObjSymbolFlags {
    type V = Set<ObjSymbolFlag>;

    closed spec fn view(&self) -> Set<ObjSymbolFlag> {
        Set::new(
            |f: ObjSymbolFlag|
                match f {
                    ObjSymbolFlag::Common => self.common,
                    ObjSymbolFlag::Weak => self.weak,
                    ObjSymbolFlag::Global => self.global,
                    ObjSymbolFlag::Local => self.local,
                },
        )
    }
}

impl ObjSymbolFlags {
    /// The empty set.
    pub fn new() -> (res: Self)
        ensures
            res@ == Set::<ObjSymbolFlag>::empty(),
    {
        let res = ObjSymbolFlags { common: false, weak: false, global: false, local: false };
        assert(res@ =~= Set::<ObjSymbolFlag>::empty());
        res
    }

    /// Adds `flag` to the set.
    pub fn insert(&mut self, flag: ObjSymbolFlag)
        ensures
            final(self)@ == old(self)@.insert(flag),
    {
        match flag {
            ObjSymbolFlag::Common => self.common = true,
            ObjSymbolFlag::Weak => self.weak = true,
            ObjSymbolFlag::Global => self.global = true,
            ObjSymbolFlag::Local => self.local = true,
        }
        assert(self@ =~= old(self)@.insert(flag));
    }

    /// Whether `flag` is in the set.
    pub fn contains(&self, flag: ObjSymbolFlag) -> (res: bool)
        ensures
            res == self@.contains(flag),
    {
        match flag {
            ObjSymbolFlag::Common => self.common,
            ObjSymbolFlag::Weak => self.weak,
            ObjSymbolFlag::Global => self.global,
            ObjSymbolFlag::Local => self.local,
        }
    }

    /// The members in the order in which the scopes are declared
    /// (`Common`, `Weak`, `Global`, `Local`), each once.
    pub fn to_vec(&self) -> (res: Vec<ObjSymbolFlag>)
        ensures
            res@.to_set() == self@,
            res@.no_duplicates(),
            forall|i: int, j: int|
                0 <= i < j < res@.len() ==> flag_rank(res@[i]) < flag_rank(res@[j]),
    {
        let mut v: Vec<ObjSymbolFlag> = Vec::new();
        let ghost ic = 0int;
        let ghost iw = 0int;
        let ghost ig = 0int;
        let ghost il = 0int;
        if self.common {
            proof {
                ic = v@.len() as int;
            }
            v.push(ObjSymbolFlag::Common);
        }
        if self.weak {
            proof {
                iw = v@.len() as int;
            }
            v.push(ObjSymbolFlag::Weak);
        }
        if self.global {
            proof {
                ig = v@.len() as int;
            }
            v.push(ObjSymbolFlag::Global);
        }
        if self.local {
            proof {
                il = v@.len() as int;
            }
            v.push(ObjSymbolFlag::Local);
        }
        assert(v@.to_set() =~= self@) by {
            assert forall|f: ObjSymbolFlag| v@.contains(f) <==> self@.contains(f) by {
                match f {
                    ObjSymbolFlag::Common => if self.common {
                        assert(v@[ic] == f);
                    },
                    ObjSymbolFlag::Weak => if self.weak {
                        assert(v@[iw] == f);
                    },
                    ObjSymbolFlag::Global => if self.global {
                        assert(v@[ig] == f);
                    },
                    ObjSymbolFlag::Local => if self.local {
                        assert(v@[il] == f);
                    },
                }
            }
        }
        v
    }
}

/// The place of a scope in the declaration order.
pub open spec fn flag_rank(f: ObjSymbolFlag) -> int {
    match f {
        ObjSymbolFlag::Common => 0,
        ObjSymbolFlag::Weak => 1,
        ObjSymbolFlag::Global => 2,
        ObjSymbolFlag::Local => 3,
    }
}

/// One attribute of a symbol line, after the `//`.
#[derive(Debug, Copy, Clone)]
pub enum Attr {
    Type(ObjSymbolKind),
    Flag(ObjSymbolFlag),
    Size(u32),
    Data(ObjDataKind),
    Align(u32),
    Hidden,
}

/// The attributes of a symbol.
#[derive(Debug, Copy, Clone)]
pub struct Attrs {
    kind: ObjSymbolKind,
    flags: ObjSymbolFlags,
    size: Option<u32>,
    data: ObjDataKind,
    hidden: bool,
    align: u32,
}

/// The abstract value of [`Attrs`].
pub struct AttrsSpec {
    pub kind: ObjSymbolKind,
    pub flags: Set<ObjSymbolFlag>,
    pub size: Option<u32>,
    pub data: ObjDataKind,
    pub hidden: bool,
    pub align: u32,
}

impl View for Attrs {
    type V = AttrsSpec;

    closed spec fn view(&self) -> AttrsSpec {
        AttrsSpec {
            kind: self.kind,
            flags: self.flags@,
            size: self.size,
            data: self.data,
            hidden: self.hidden,
            align: self.align,
        }
    }
}

/// The attributes of a symbol line that has none: an unknown kind and data
/// kind, no scopes, no size, not hidden, alignment 0.
pub open spec fn default_attrs() -> AttrsSpec {
    AttrsSpec {
        kind: ObjSymbolKind::Unknown,
        flags: Set::empty(),
        size: None,
        data: ObjDataKind::Unknown,
        hidden: false,
        align: 0,
    }
}

/// What one attribute does to the attributes read before it: a kind, size,
/// data kind or alignment replaces the earlier one, a scope is added to the
/// scopes, `hidden` marks the symbol hidden.
pub open spec fn apply_attr(a: AttrsSpec, attr: Attr) -> AttrsSpec {
    match attr {
        Attr::Type(k) => AttrsSpec { kind: k, ..a },
        Attr::Flag(f) => AttrsSpec { flags: a.flags.insert(f), ..a },
        Attr::Size(n) => AttrsSpec { size: Some(n), ..a },
        Attr::Data(d) => AttrsSpec { data: d, ..a },
        Attr::Hidden => AttrsSpec { hidden: true, ..a },
        Attr::Align(n) => AttrsSpec { align: n, ..a },
    }
}

/// The attributes that a list of attributes gives, read from the left.
pub open spec fn fold_attrs(attrs: Seq<Attr>) -> AttrsSpec
    decreases attrs.len(),
{
    if attrs.len() == 0 {
        default_attrs()
    } else {
        apply_attr(fold_attrs(attrs.drop_last()), attrs.last())
    }
}

/// `attrs[i]` is the last attribute of its key in `attrs`.
pub open spec fn last_of_key(attrs: Seq<Attr>, i: int) -> bool {
    &&& 0 <= i < attrs.len()
    &&& forall|j: int| i < j < attrs.len() ==> !same_key(#[trigger] attrs[j], attrs[i])
}

/// Whether two attributes set the same field.
pub open spec fn same_key(a: Attr, b: Attr) -> bool {
    match (a, b) {
        (Attr::Type(_), Attr::Type(_)) => true,
        (Attr::Flag(_), Attr::Flag(_)) => true,
        (Attr::Size(_), Attr::Size(_)) => true,
        (Attr::Data(_), Attr::Data(_)) => true,
        (Attr::Align(_), Attr::Align(_)) => true,
        (Attr::Hidden, Attr::Hidden) => true,
        _ => false,
    }
}

/// What a list of attributes gives, field by field: the last `type:`,
/// `size:`, `data:` and `align:` win (with an unknown kind, no size, an
/// unknown data kind and alignment 0 when there is none), every `scope:` is
/// kept, and the symbol is hidden when `hidden` appears anywhere.
pub proof fn law_attrs_last_wins(attrs: Seq<Attr>)
    ensures
        forall|f: ObjSymbolFlag|
            fold_attrs(attrs).flags.contains(f) <==> exists|i: int|
                0 <= i < attrs.len() && attrs[i] == Attr::Flag(f),
        fold_attrs(attrs).hidden <==> exists|i: int| 0 <= i < attrs.len() && attrs[i] is Hidden,
        forall|i: int, k: ObjSymbolKind|
            last_of_key(attrs, i) && attrs[i] == Attr::Type(k) ==> fold_attrs(attrs).kind == k,
        forall|i: int, n: u32|
            last_of_key(attrs, i) && attrs[i] == Attr::Size(n) ==> fold_attrs(attrs).size == Some(n),
        forall|i: int, d: ObjDataKind|
            last_of_key(attrs, i) && attrs[i] == Attr::Data(d) ==> fold_attrs(attrs).data == d,
        forall|i: int, n: u32|
            last_of_key(attrs, i) && attrs[i] == Attr::Align(n) ==> fold_attrs(attrs).align == n,
        (forall|i: int| 0 <= i < attrs.len() ==> !(attrs[i] is Type)) ==> fold_attrs(attrs).kind
            == ObjSymbolKind::Unknown,
        (forall|i: int| 0 <= i < attrs.len() ==> !(attrs[i] is Size)) ==> fold_attrs(attrs).size
            is None,
        (forall|i: int| 0 <= i < attrs.len() ==> !(attrs[i] is Data)) ==> fold_attrs(attrs).data
            == ObjDataKind::Unknown,
        (forall|i: int| 0 <= i < attrs.len() ==> !(attrs[i] is Align)) ==> fold_attrs(attrs).align
            == 0,
    decreases attrs.len(),
{
    if attrs.len() > 0 {
        let init = attrs.drop_last();
        let a = attrs.last();
        let n = attrs.len() - 1;
        law_attrs_last_wins(init);
        assert forall|i: int| 0 <= i < init.len() implies init[i] == #[trigger] attrs[i] by {}
        assert forall|f: ObjSymbolFlag|
            fold_attrs(attrs).flags.contains(f) <==> exists|i: int|
                0 <= i < attrs.len() && attrs[i] == Attr::Flag(f) by {
            if exists|i: int| 0 <= i < attrs.len() && attrs[i] == Attr::Flag(f) {
                let i = choose|i: int| 0 <= i < attrs.len() && attrs[i] == Attr::Flag(f);
                if i < n {
                    assert(init[i] == Attr::Flag(f));
                }
            }
            if fold_attrs(init).flags.contains(f) {
                let i = choose|i: int| 0 <= i < init.len() && init[i] == Attr::Flag(f);
                assert(attrs[i] == Attr::Flag(f));
            }
        }
        if exists|i: int| 0 <= i < attrs.len() && attrs[i] is Hidden {
            let i = choose|i: int| 0 <= i < attrs.len() && attrs[i] is Hidden;
            if i < n {
                assert(init[i] is Hidden);
            }
        }
        if fold_attrs(init).hidden {
            let i = choose|i: int| 0 <= i < init.len() && init[i] is Hidden;
            assert(attrs[i] is Hidden);
        }
        assert forall|i: int| last_of_key(attrs, i) && i < n implies last_of_key(init, i) by {
            assert forall|j: int| i < j < init.len() implies !same_key(#[trigger] init[j], init[i]) by {
                assert(init[j] == attrs[j]);
            }
        }
        assert forall|i: int| last_of_key(attrs, i) && i < n implies !same_key(a, attrs[i]) by {
            assert(!same_key(attrs[n], attrs[i]));
        }
    }
}

impl Default for Attrs {
    fn default() -> (res: Self)
        ensures
            res@ == default_attrs(),
    {
        Attrs {
            kind: ObjSymbolKind::Unknown,
            flags: ObjSymbolFlags::new(),
            size: None,
            data: ObjDataKind::Unknown,
            hidden: false,
            align: 0,
        }
    }
}

impl Attrs {
    /// Applies one attribute.
    pub fn apply(&mut self, attr: Attr)
        ensures
            final(self)@ == apply_attr(old(self)@, attr),
    {
        match attr {
            Attr::Type(k) => self.kind = k,
            Attr::Flag(f) => self.flags.insert(f),
            Attr::Size(n) => self.size = Some(n),
            Attr::Data(d) => self.data = d,
            Attr::Hidden => self.hidden = true,
            Attr::Align(n) => self.align = n,
        }
    }

    /// The symbol kind.
    pub fn kind(&self) -> (res: ObjSymbolKind)
        ensures
            res == self@.kind,
    {
        self.kind
    }

    /// The scopes.
    pub fn flags(&self) -> (res: ObjSymbolFlags)
        ensures
            res@ == self@.flags,
    {
        self.flags
    }

    /// The size, when one was given.
    pub fn size(&self) -> (res: Option<u32>)
        ensures
            res == self@.size,
    {
        self.size
    }

    /// The data kind.
    pub fn data(&self) -> (res: ObjDataKind)
        ensures
            res == self@.data,
    {
        self.data
    }

    /// Whether the symbol is hidden.
    pub fn hidden(&self) -> (res: bool)
        ensures
            res == self@.hidden,
    {
        self.hidden
    }

    /// The alignment (0 when none was given).
    pub fn align(&self) -> (res: u32)
        ensures
            res == self@.align,
    {
        self.align
    }
}

/// One line of `symbols.txt`. The strings are slices of the text that was
/// read.
#[derive(Debug)]
pub struct ObjSymbol<'a> {
    name: &'a str,
    section: Option<&'a str>,
    addr: &'a str,
    attrs: Attrs,
}

/// The abstract value of an [`ObjSymbol`].
pub struct SymbolSpec {
    pub name: Seq<char>,
    pub section: Option<Seq<char>>,
    pub addr: Seq<char>,
    pub attrs: AttrsSpec,
}

impl<'a> DeepView for ObjSymbol<'a> {
    type V = SymbolSpec;

    closed spec fn deep_view(&self) -> SymbolSpec {
        SymbolSpec {
            name: self.name@,
            section: match self.section {
                Some(s) => Some(s@),
                None => None,
            },
            addr: self.addr@,
            attrs: self.attrs@,
        }
    }
}

impl<'a> ObjSymbol<'a> {
    /// A symbol with the given parts.
    pub fn new(name: &'a str, section: Option<&'a str>, addr: &'a str, attrs: Attrs) -> (res: Self)
        ensures
            res.deep_view() == (SymbolSpec {
                name: name@,
                section: match section {
                    Some(s) => Some(s@),
                    None => None,
                },
                addr: addr@,
                attrs: attrs@,
            }),
    {
        ObjSymbol { name, section, addr, attrs }
    }

    /// The name.
    pub fn name(&self) -> (res: &'a str)
        ensures
            res@ == self.deep_view().name,
    {
        self.name
    }

    /// The section, when the line names one.
    pub fn section(&self) -> (res: Option<&'a str>)
        ensures
            match res {
                Some(s) => self.deep_view().section == Some(s@),
                None => self.deep_view().section is None,
            },
    {
        self.section
    }

    /// The address, as written.
    pub fn addr(&self) -> (res: &'a str)
        ensures
            res@ == self.deep_view().addr,
    {
        self.addr
    }

    /// The attributes.
    pub fn attrs(&self) -> (res: Attrs)
        ensures
            res@ == self.deep_view().attrs,
    {
        self.attrs
    }
}

} // verus!
