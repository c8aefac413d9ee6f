//! Data model: source positions, half-open character ranges, and the nested
//! per-function / per-file / per-crate / per-workspace output structure.

use vstd::prelude::*;

verus! {

/// A position in the character stream of a source file.
///
/// The position is 0-based and counts logical characters: carriage-return
/// characters are never counted, so files using CRLF line endings behave
/// exactly like their LF-normalized variants.
#[derive(Clone, Copy, PartialEq, Eq, Structural, PartialOrd, Ord, Debug)]
pub struct Loc(pub u32);

/// Number of bytes the UTF-8 encoding of `c` occupies.
pub open spec fn char_utf8_len(c: char) -> int {
    if (c as u32) < 0x80 {
        1
    } else if (c as u32) < 0x800 {
        2
    } else if (c as u32) < 0x10000 {
        3
    } else {
        4
    }
}

/// Number of logical (non-carriage-return) characters of `s` that are fully
/// contained in its first `byte_budget` bytes.  Carriage returns consume
/// bytes from the budget but are never counted.
pub open spec fn chars_within_bytes(s: Seq<char>, byte_budget: int) -> nat
    decreases s.len(),
{
    if s.len() == 0 || byte_budget <= 0 {
        0
    } else {
        let l = char_utf8_len(s[0]);
        if s[0] == '\r' {
            chars_within_bytes(s.drop_first(), byte_budget - l)
        } else if l <= byte_budget {
            1 + chars_within_bytes(s.drop_first(), byte_budget - l)
        } else {
            chars_within_bytes(s.drop_first(), byte_budget - l)
        }
    }
}

proof fn lemma_chars_within_bytes_le(s: Seq<char>, byte_budget: int)
    ensures
        chars_within_bytes(s, byte_budget) <= byte_budget || byte_budget < 0,
    decreases s.len(),
{
    if s.len() == 0 || byte_budget <= 0 {
    } else {
        let l = char_utf8_len(s[0]);
        assert(1 <= l <= 4);
        lemma_chars_within_bytes_le(s.drop_first(), byte_budget - l);
        if s[0] == '\r' {
            assert(chars_within_bytes(s, byte_budget) == chars_within_bytes(
                s.drop_first(),
                byte_budget - l,
            ));
        } else if l <= byte_budget {
            assert(chars_within_bytes(s, byte_budget) == 1 + chars_within_bytes(
                s.drop_first(),
                byte_budget - l,
            ));
        } else {
            assert(chars_within_bytes(s.drop_first(), byte_budget - l) == 0);
        }
    }
}

impl Loc {
    /// Builds a location from a raw byte position into `source`.
    ///
    /// The byte position is first reduced by `offset` (saturating at zero),
    /// then converted to a character position by walking the text, skipping
    /// carriage returns as the compiler does.
    pub fn new(source: &str, byte_pos: u32, offset: u32) -> (r: Self)
        ensures
            r.0 == chars_within_bytes(
                source@,
                if byte_pos >= offset {
                    byte_pos - offset
                } else {
                    0
                },
            ),
    {
        let byte_pos: u32 = if byte_pos >= offset {
            byte_pos - offset
        } else {
            0
        };
        let ghost budget0: int = byte_pos as int;
        let n = source.unicode_len();
        let mut char_count: u32 = 0;
        let mut byte_count: u64 = 0;
        let mut i: usize = 0;
        proof {
            lemma_chars_within_bytes_le(source@, budget0);
            assert(source@.skip(0) =~= source@);
        }
        while i < n && byte_count < byte_pos as u64
            invariant
                0 <= i <= n,
                n == source@.len(),
                byte_count <= budget0 + 4,
                budget0 == byte_pos as int,
                chars_within_bytes(source@, budget0) == char_count + chars_within_bytes(
                    source@.skip(i as int),
                    budget0 - byte_count,
                ),
                char_count + chars_within_bytes(source@.skip(i as int), budget0 - byte_count)
                    <= budget0 || budget0 == 0,
            decreases n - i,
        {
            let c = source.get_char(i);
            let l = utf8_len_of(c);
            proof {
                assert(source@.skip(i as int)[0] == source@[i as int]);
                assert(source@.skip(i as int).drop_first() =~= source@.skip(i as int + 1));
            }
            if c != '\r' {
                byte_count = byte_count + l as u64;
                if byte_count <= byte_pos as u64 {
                    char_count = char_count + 1;
                }
            } else {
                byte_count = byte_count + l as u64;
            }
            i = i + 1;
        }
        proof {
            if i == n {
                assert(source@.skip(n as int).len() == 0);
            }
            assert(chars_within_bytes(source@.skip(i as int), budget0 - byte_count) == 0);
        }
        Loc(char_count)
    }

    /// Adds a signed offset, saturating at `0` and at `u32::MAX`.
    pub fn add(self, rhs: i32) -> (r: Self)
        ensures
            rhs >= 0 ==> r.0 == if self.0 + rhs <= u32::MAX {
                self.0 + rhs
            } else {
                u32::MAX as int
            },
            rhs < 0 ==> r.0 == if self.0 + rhs >= 0 {
                self.0 + rhs
            } else {
                0
            },
    {
        if rhs >= 0 {
            let d = rhs as u32;
            if self.0 <= u32::MAX - d {
                Loc(self.0 + d)
            } else {
                Loc(u32::MAX)
            }
        } else {
            let d = if rhs == i32::MIN {
                0x8000_0000u32
            } else {
                (-rhs) as u32
            };
            if self.0 >= d {
                Loc(self.0 - d)
            } else {
                Loc(0)
            }
        }
    }

    /// Subtracts a signed offset, saturating at `0` and at `u32::MAX`.
    pub fn sub(self, rhs: i32) -> (r: Self)
        ensures
            rhs >= 0 ==> r.0 == if self.0 - rhs >= 0 {
                self.0 - rhs
            } else {
                0
            },
            rhs < 0 ==> r.0 == if self.0 - rhs <= u32::MAX {
                self.0 - rhs
            } else {
                u32::MAX as int
            },
    {
        if rhs >= 0 {
            let d = rhs as u32;
            if self.0 >= d {
                Loc(self.0 - d)
            } else {
                Loc(0)
            }
        } else {
            let d = if rhs == i32::MIN {
                0x8000_0000u32
            } else {
                (-rhs) as u32
            };
            if self.0 <= u32::MAX - d {
                Loc(self.0 + d)
            } else {
                Loc(u32::MAX)
            }
        }
    }
}

/// Exact byte width of the UTF-8 encoding of `c`.
pub fn utf8_len_of(c: char) -> (n: u32)
    ensures
        n == char_utf8_len(c),
        1 <= n <= 4,
{
    let u = c as u32;
    if u < 0x80 {
        1
    } else if u < 0x800 {
        2
    } else if u < 0x10000 {
        3
    } else {
        4
    }
}

impl From<u32> for Loc {
    fn from(value: u32) -> (r: Self) {
        Loc(value)
    }
}

impl vstd::std_specs::convert::FromSpecImpl<u32> for Loc {
    open spec fn obeys_from_spec() -> bool {
        true
    }

    open spec fn from_spec(value: u32) -> Self {
        Loc(value)
    }
}

impl From<Loc> for u32 {
    fn from(value: Loc) -> (r: u32) {
        value.0
    }
}

impl vstd::std_specs::convert::FromSpecImpl<Loc> for u32 {
    open spec fn obeys_from_spec() -> bool {
        true
    }

    open spec fn from_spec(value: Loc) -> u32 {
        value.0
    }
}

/// A half-open character range `[from, until)` in source code.
///
/// A range always has positive width: construction of an empty or inverted
/// interval fails, so no "empty range" value exists.
#[derive(Clone, Copy, PartialEq, Eq, Structural, Debug)]
pub struct Range {
    from: Loc,
    until: Loc,
}

impl Range {
    /// Starting location, as seen by specifications.
    pub closed spec fn spec_from(&self) -> Loc {
        self.from
    }

    /// Ending location, as seen by specifications.
    pub closed spec fn spec_until(&self) -> Loc {
        self.until
    }

    /// The well-formedness every `Range` value carries: strictly positive width.
    #[verifier::type_invariant]
    pub open spec fn wf(self) -> bool {
        self.spec_from().0 < self.spec_until().0
    }

    /// Two ranges with the same endpoints are the same value.
    pub proof fn lemma_ext_equal(a: Range, b: Range)
        requires
            a.from() == b.from(),
            a.until() == b.until(),
        ensures
            a == b,
    {
    }

    /// Creates the range `[from, until)`, or `None` when `until <= from`.
    pub fn new(from: Loc, until: Loc) -> (r: Option<Self>)
        ensures
            r is Some <==> from.0 < until.0,
            r is Some ==> r == Some(spec_range(from, until)),
    {
        if until.0 <= from.0 {
            None
        } else {
            Some(Range { from, until })
        }
    }

    /// Returns the starting location of the range.
    #[verifier::when_used_as_spec(spec_from)]
    pub fn from(&self) -> (r: Loc)
        ensures
            r == self.spec_from(),
    {
        self.from
    }

    /// Returns the ending location of the range.
    #[verifier::when_used_as_spec(spec_until)]
    pub fn until(&self) -> (r: Loc)
        ensures
            r == self.spec_until(),
    {
        self.until
    }

    /// Returns the width of the range in characters.
    pub fn size(&self) -> (r: u32)
        ensures
            r == self.until().0 - self.from().0,
    {
        proof {
            use_type_invariant(self);
        }
        self.until.0 - self.from.0
    }
}

/// The range value with the given endpoints, for use in specifications.
pub closed spec fn spec_range(from: Loc, until: Loc) -> Range {
    Range { from, until }
}

/// The endpoints of [`spec_range`] are the ones given.
pub broadcast proof fn lemma_spec_range(from: Loc, until: Loc)
    ensures
        (#[trigger] spec_range(from, until)).from() == from,
        spec_range(from, until).until() == until,
{
}

/// Identifies a local variable slot scoped to one function body.
#[derive(Debug, Clone, Copy, PartialEq, Eq, Structural, Hash)]
pub struct FnLocal {
    /// Local variable id within the function.
    pub id: u32,
    /// Id of the function this local belongs to.
    pub fn_id: u32,
}

impl FnLocal {
    /// Creates a new function-local variable identifier.
    pub fn new(id: u32, fn_id: u32) -> (r: Self)
        ensures
            r == (FnLocal { id, fn_id }),
    {
        FnLocal { id, fn_id }
    }
}

/// A MIR variable together with the ranges where it is live and dead.
#[derive(Clone, Copy, PartialEq, Eq, Structural, Debug)]
pub enum MirVariable {
    /// A user-defined variable.
    User { index: u32, live: Range, dead: Range },
    /// A compiler-generated temporary or other variable.
    Other { index: u32, live: Range, dead: Range },
}

impl MirVariable {
    /// The variable index carried by either variant.
    pub open spec fn spec_index_of(self) -> u32 {
        match self {
            MirVariable::User { index, .. } => index,
            MirVariable::Other { index, .. } => index,
        }
    }
}

/// Whether `vars` already holds a variable with the given index.
pub open spec fn mir_variables_contain(vars: Seq<MirVariable>, index: u32) -> bool {
    exists|i: int| 0 <= i < vars.len() && #[trigger] vars[i].spec_index_of() == index
}

/// An insertion-ordered collection of MIR variables, at most one per index.
///
/// The first variable pushed for a given index wins; later pushes with the
/// same index are ignored.
#[derive(Clone, PartialEq, Eq, Debug)]
pub struct MirVariables(Vec<MirVariable>);

impl MirVariables {
    /// The variables in insertion order.
    pub closed spec fn view(&self) -> Seq<MirVariable> {
        self.0@
    }

    /// Each index occurs at most once.
    pub open spec fn wf(&self) -> bool {
        forall|i: int, j: int|
            0 <= i < j < self@.len() ==> (#[trigger] self@[i]).spec_index_of() != (
            #[trigger] self@[j]).spec_index_of()
    }

    /// Creates an empty collection.
    pub fn new() -> (r: Self)
        ensures
            r@ == Seq::<MirVariable>::empty(),
            r.wf(),
    {
        MirVariables(Vec::new())
    }

    /// Creates an empty collection with space reserved for `capacity` entries.
    pub fn with_capacity(capacity: usize) -> (r: Self)
        ensures
            r@ == Seq::<MirVariable>::empty(),
            r.wf(),
    {
        MirVariables(Vec::with_capacity(capacity))
    }

    /// Adds `var` unless a variable with the same index is already present.
    pub fn push(&mut self, var: MirVariable)
        requires
            old(self).wf(),
        ensures
            final(self).wf(),
            mir_variables_contain(old(self)@, var.spec_index_of()) ==> final(self)@ == old(self)@,
            !mir_variables_contain(old(self)@, var.spec_index_of()) ==> final(self)@ == old(
                self,
            )@.push(var),
    {
        let index = match &var {
            MirVariable::User { index, .. } => *index,
            MirVariable::Other { index, .. } => *index,
        };
        let n = self.0.len();
        let mut i: usize = 0;
        while i < n
            invariant
                0 <= i <= n,
                n == self@.len(),
                self == old(self),
                self.wf(),
                index == var.spec_index_of(),
                forall|j: int| 0 <= j < i ==> (#[trigger] self@[j]).spec_index_of() != index,
            decreases n - i,
        {
            let present = match &self.0[i] {
                MirVariable::User { index: idx, .. } => *idx == index,
                MirVariable::Other { index: idx, .. } => *idx == index,
            };
            if present {
                proof {
                    assert(self@[i as int].spec_index_of() == index);
                    assert(mir_variables_contain(self@, index));
                }
                return ;
            }
            i = i + 1;
        }
        self.0.push(var);
    }

    /// Consumes the collection, returning the variables in insertion order.
    pub fn to_vec(self) -> (r: Vec<MirVariable>)
        ensures
            r@ == self@,
    {
        self.0
    }
}

impl Default for MirVariables {
    fn default() -> (r: Self)
        ensures
            r@ == Seq::<MirVariable>::empty(),
            r.wf(),
    {
        MirVariables::new()
    }
}

/// The right-hand side of a MIR assignment that the analysis cares about.
#[derive(Clone, Copy, Debug)]
pub enum MirRval {
    Move { target_local: FnLocal, range: Range },
    Borrow { target_local: FnLocal, range: Range, mutable: bool, outlive: Option<Range> },
}

/// One MIR statement, reduced to what range extraction needs.
#[derive(Clone, Copy, Debug)]
pub enum MirStatement {
    StorageLive { target_local: FnLocal, range: Range },
    StorageDead { target_local: FnLocal, range: Range },
    Assign { target_local: FnLocal, range: Range, rval: Option<MirRval> },
    Other { range: Range },
}

impl MirStatement {
    /// The source range covered by the statement, as seen by specifications.
    pub open spec fn spec_range(&self) -> Range {
        match *self {
            MirStatement::StorageLive { range, .. } => range,
            MirStatement::StorageDead { range, .. } => range,
            MirStatement::Assign { range, .. } => range,
            MirStatement::Other { range } => range,
        }
    }

    /// Returns the source range covered by the statement.
    #[verifier::when_used_as_spec(spec_range)]
    pub fn range(&self) -> (r: Range)
        ensures
            r == self.spec_range(),
    {
        match self {
            MirStatement::StorageLive { range, .. } => *range,
            MirStatement::StorageDead { range, .. } => *range,
            MirStatement::Assign { range, .. } => *range,
            MirStatement::Other { range } => *range,
        }
    }
}

/// One MIR terminator, reduced to what range extraction needs.
#[derive(Clone, Copy, Debug)]
pub enum MirTerminator {
    Drop { local: FnLocal, range: Range },
    Call { destination_local: FnLocal, fn_span: Range },
    Other { range: Range },
}

impl MirTerminator {
    /// The source range covered by the terminator, as seen by specifications.
    pub open spec fn spec_range(&self) -> Range {
        match *self {
            MirTerminator::Drop { range, .. } => range,
            MirTerminator::Call { fn_span, .. } => fn_span,
            MirTerminator::Other { range } => range,
        }
    }

    /// Returns the source range covered by the terminator.
    #[verifier::when_used_as_spec(spec_range)]
    pub fn range(&self) -> (r: Range)
        ensures
            r == self.spec_range(),
    {
        match self {
            MirTerminator::Drop { range, .. } => *range,
            MirTerminator::Call { fn_span, .. } => *fn_span,
            MirTerminator::Other { range } => *range,
        }
    }
}

/// A sequence of ranges attached to one local variable.
pub type RangeVec = Vec<Range>;

/// The statements of one basic block.
pub type StatementVec = Vec<MirStatement>;

/// The declarations of one function.
pub type DeclVec = Vec<MirDecl>;

/// Converts a [`RangeVec`] into a plain vector.
pub fn range_vec_into_vec(ranges: RangeVec) -> (r: Vec<Range>)
    ensures
        r@ == ranges@,
{
    ranges
}

/// Converts a plain vector into a [`RangeVec`].
pub fn range_vec_from_vec(vec: Vec<Range>) -> (r: RangeVec)
    ensures
        r@ == vec@,
{
    vec
}

/// One basic block: a list of statements and an optional terminator.
#[derive(Clone, Debug)]
pub struct MirBasicBlock {
    pub statements: StatementVec,
    pub terminator: Option<MirTerminator>,
}

impl MirBasicBlock {
    /// Creates an empty basic block.
    pub fn new() -> (r: Self)
        ensures
            r.statements@ == Seq::<MirStatement>::empty(),
            r.terminator is None,
    {
        MirBasicBlock { statements: Vec::new(), terminator: None }
    }

    /// Creates an empty basic block with space reserved for `capacity` statements.
    pub fn with_capacity(capacity: usize) -> (r: Self)
        ensures
            r.statements@ == Seq::<MirStatement>::empty(),
            r.terminator is None,
    {
        MirBasicBlock { statements: Vec::with_capacity(capacity), terminator: None }
    }
}

impl Default for MirBasicBlock {
    fn default() -> (r: Self)
        ensures
            r.statements@ == Seq::<MirStatement>::empty(),
            r.terminator is None,
    {
        MirBasicBlock::new()
    }
}

/// The declaration record of one local: its name and type when user-visible,
/// and the extracted range sets.
#[derive(Clone, Debug)]
pub enum MirDecl {
    User {
        local: FnLocal,
        name: String,
        span: Range,
        ty: String,
        lives: RangeVec,
        shared_borrow: RangeVec,
        mutable_borrow: RangeVec,
        drop: bool,
        drop_range: RangeVec,
        must_live_at: RangeVec,
    },
    Other {
        local: FnLocal,
        ty: String,
        lives: RangeVec,
        shared_borrow: RangeVec,
        mutable_borrow: RangeVec,
        drop: bool,
        drop_range: RangeVec,
        must_live_at: RangeVec,
    },
}

/// One analyzed function: its id, basic blocks, and declaration records.
#[derive(Clone, Debug)]
pub struct Function {
    pub fn_id: u32,
    pub basic_blocks: Vec<MirBasicBlock>,
    pub decls: DeclVec,
}

impl Function {
    /// Creates an empty function with the given id.
    pub fn new(fn_id: u32) -> (r: Self)
        ensures
            r.fn_id == fn_id,
            r.basic_blocks@ == Seq::<MirBasicBlock>::empty(),
            r.decls@ == Seq::<MirDecl>::empty(),
    {
        Function { fn_id, basic_blocks: Vec::new(), decls: Vec::new() }
    }

    /// Creates an empty function with space reserved for basic blocks and
    /// declarations.
    pub fn with_capacity(fn_id: u32, bb_capacity: usize, decl_capacity: usize) -> (r: Self)
        ensures
            r.fn_id == fn_id,
            r.basic_blocks@ == Seq::<MirBasicBlock>::empty(),
            r.decls@ == Seq::<MirDecl>::empty(),
    {
        Function {
            fn_id,
            basic_blocks: Vec::with_capacity(bb_capacity),
            decls: Vec::with_capacity(decl_capacity),
        }
    }
}

/// The functions found in one source file.
#[derive(Clone, Debug)]
pub struct File {
    pub items: Vec<Function>,
}

impl File {
    /// Creates a file with no functions.
    pub fn new() -> (r: Self)
        ensures
            r.items@ == Seq::<Function>::empty(),
    {
        File { items: Vec::new() }
    }

    /// Creates a file with space reserved for `capacity` functions.
    pub fn with_capacity(capacity: usize) -> (r: Self)
        ensures
            r.items@ == Seq::<Function>::empty(),
    {
        File { items: Vec::with_capacity(capacity) }
    }
}

impl Default for File {
    fn default() -> (r: Self)
        ensures
            r.items@ == Seq::<Function>::empty(),
    {
        File::new()
    }
}

/// Whether `items` already holds a function with the given id.
pub open spec fn file_contains_fn(items: Seq<Function>, fn_id: u32) -> bool {
    exists|i: int| 0 <= i < items.len() && (#[trigger] items[i]).fn_id == fn_id
}

/// Function ids are pairwise distinct within one file.
pub open spec fn file_fn_ids_unique(items: Seq<Function>) -> bool {
    forall|i: int, j: int|
        0 <= i < j < items.len() ==> (#[trigger] items[i]).fn_id != (#[trigger] items[j]).fn_id
}

/// The result of appending `incoming` to `existing`, discarding every
/// incoming function whose id already occurs earlier (first-seen wins).
pub open spec fn spec_merge_items(existing: Seq<Function>, incoming: Seq<Function>) -> Seq<
    Function,
>
    decreases incoming.len(),
{
    if incoming.len() == 0 {
        existing
    } else if file_contains_fn(existing, incoming[0].fn_id) {
        spec_merge_items(existing, incoming.drop_first())
    } else {
        spec_merge_items(existing.push(incoming[0]), incoming.drop_first())
    }
}
/// Function ids are pairwise distinct within every file of a file map.
pub open spec fn files_fn_ids_unique(entries: Seq<(Seq<char>, Seq<Function>)>) -> bool {
    forall|i: int| 0 <= i < entries.len() ==> file_fn_ids_unique((#[trigger] entries[i]).1)
}

/// Merging keeps per-file function ids unique: incoming duplicates, whether
/// against the existing items or within the incoming list itself, are
/// dropped.
pub proof fn lemma_merge_items_unique(existing: Seq<Function>, incoming: Seq<Function>)
    requires
        file_fn_ids_unique(existing),
    ensures
        file_fn_ids_unique(spec_merge_items(existing, incoming)),
    decreases incoming.len(),
{
    if incoming.len() == 0 {
    } else if file_contains_fn(existing, incoming[0].fn_id) {
        lemma_merge_items_unique(existing, incoming.drop_first());
    } else {
        assert(file_fn_ids_unique(existing.push(incoming[0]))) by {
            assert forall|a: int, b: int|
                0 <= a < b < existing.push(incoming[0]).len() implies (
            #[trigger] existing.push(incoming[0])[a]).fn_id != (
            #[trigger] existing.push(incoming[0])[b]).fn_id by {
                if b == existing.len() as int {
                    assert(existing.push(incoming[0])[a] == existing[a]);
                    if existing[a].fn_id == incoming[0].fn_id {
                        assert(file_contains_fn(existing, incoming[0].fn_id));
                        assert(false);
                    }
                } else {
                    assert(existing.push(incoming[0])[a] == existing[a]);
                    assert(existing.push(incoming[0])[b] == existing[b]);
                }
            }
        }
        lemma_merge_items_unique(existing.push(incoming[0]), incoming.drop_first());
    }
}

/// Whether `entries` holds an entry under the name `k`.
pub open spec fn view_contains_name<V>(entries: Seq<(Seq<char>, V)>, k: Seq<char>) -> bool {
    exists|i: int| 0 <= i < entries.len() && (#[trigger] entries[i]).0 == k
}

/// The position of the entry named `k`.
pub open spec fn view_name_index<V>(entries: Seq<(Seq<char>, V)>, k: Seq<char>) -> int {
    choose|i: int| 0 <= i < entries.len() && (#[trigger] entries[i]).0 == k
}

/// Names are pairwise distinct.
pub open spec fn view_names_unique<V>(entries: Seq<(Seq<char>, V)>) -> bool {
    forall|i: int, j: int|
        0 <= i < j < entries.len() ==> (#[trigger] entries[i]).0 != (#[trigger] entries[j]).0
}

/// The per-crate map from file name to the functions found in that file,
/// in insertion order with pairwise-distinct names.
#[derive(Clone, Debug)]
pub struct Crate(pub Vec<(String, File)>);

impl View for Crate {
    type V = Seq<(Seq<char>, Seq<Function>)>;

    open spec fn view(&self) -> Seq<(Seq<char>, Seq<Function>)> {
        self.0@.map_values(|e: (String, File)| (e.0@, e.1.items@))
    }
}

/// One step of crate merging: fold `entry` into `entries`.
pub open spec fn spec_crate_merge_one(
    entries: Seq<(Seq<char>, Seq<Function>)>,
    entry: (Seq<char>, Seq<Function>),
) -> Seq<(Seq<char>, Seq<Function>)> {
    if view_contains_name(entries, entry.0) {
        let i = view_name_index(entries, entry.0);
        entries.update(i, (entries[i].0, spec_merge_items(entries[i].1, entry.1)))
    } else {
        entries.push(entry)
    }
}

/// The result of merging the file map `b` into `a`, file by file.
pub open spec fn spec_crate_merge(
    a: Seq<(Seq<char>, Seq<Function>)>,
    b: Seq<(Seq<char>, Seq<Function>)>,
) -> Seq<(Seq<char>, Seq<Function>)>
    decreases b.len(),
{
    if b.len() == 0 {
        a
    } else {
        spec_crate_merge(spec_crate_merge_one(a, b[0]), b.drop_first())
    }
}

impl Crate {
    /// File names are pairwise distinct.
    pub open spec fn wf(&self) -> bool {
        view_names_unique(self@)
    }

    /// Creates an empty crate.
    pub fn new() -> (r: Self)
        ensures
            r@ == Seq::<(Seq<char>, Seq<Function>)>::empty(),
            r.wf(),
    {
        let r = Crate(Vec::new());
        proof {
            assert(r@ =~= Seq::<(Seq<char>, Seq<Function>)>::empty());
        }
        r
    }

    /// Merges every file of `other` into this crate.
    ///
    /// Files of `other` not yet present are appended; for files already
    /// present the incoming functions are appended, discarding those whose
    /// function id is already there (first-seen wins).
    pub fn merge(&mut self, other: Self)
        requires
            old(self).wf(),
        ensures
            final(self).wf(),
            final(self)@ == spec_crate_merge(old(self)@, other@),
            files_fn_ids_unique(old(self)@) && files_fn_ids_unique(other@) ==> files_fn_ids_unique(
                final(self)@,
            ),
    {
        let ghost goal = spec_crate_merge(old(self)@, other@);
        let ghost both_unique = files_fn_ids_unique(old(self)@) && files_fn_ids_unique(other@);
        let mut other = other;
        while other.0.len() > 0
            invariant
                self.wf(),
                spec_crate_merge(self@, other@) == goal,
                both_unique ==> files_fn_ids_unique(self@),
                both_unique ==> files_fn_ids_unique(other@),
            decreases other.0.len(),
        {
            let ghost entries_before = self@;
            let ghost incoming_before = other@;
            let entry = other.0.remove(0);
            proof {
                assert(other@ =~~= incoming_before.drop_first());
                assert((entry.0@, entry.1.items@) == incoming_before[0]);
                if both_unique {
                    assert(file_fn_ids_unique(incoming_before[0].1));
                    assert forall|w: int| 0 <= w < other@.len() implies file_fn_ids_unique(
                        (#[trigger] other@[w]).1,
                    ) by {
                        assert(other@[w] == incoming_before[w + 1]);
                    }
                }
            }
            self.merge_entry(entry);
        }
    }

    /// Folds one (file name, file) pair into the crate.
    fn merge_entry(&mut self, entry: (String, File))
        requires
            old(self).wf(),
        ensures
            final(self).wf(),
            final(self)@ == spec_crate_merge_one(old(self)@, (entry.0@, entry.1.items@)),
            files_fn_ids_unique(old(self)@) && file_fn_ids_unique(entry.1.items@)
                ==> files_fn_ids_unique(final(self)@),
    {
        let ghost k = entry.0@;
        let n = self.0.len();
        let mut i: usize = 0;
        while i < n
            invariant
                0 <= i <= n,
                n == self.0@.len(),
                self == old(self),
                self.wf(),
                k == entry.0@,
                forall|j: int| 0 <= j < i ==> (#[trigger] self@[j]).0 != k,
            decreases n - i,
        {
            proof {
                assert(self@[i as int] == (self.0@[i as int].0@, self.0@[i as int].1.items@));
            }
            if string_eq(&self.0[i].0, &entry.0) {
                proof {
                    assert(view_contains_name(self@, k));
                    assert(view_name_index(self@, k) == i as int) by {
                        let w = view_name_index(self@, k);
                        assert(0 <= w < self@.len() && self@[w].0 == k);
                        if w != i as int {
                            assert(self@[i as int].0 == k);
                            assert(false);
                        }
                    }
                }
                let ghost view_before = self@;
                let (name, existing) = self.0.remove(i);
                let ghost existing_items = existing.items@;
                let merged = merge_file_items(existing, entry.1);
                self.0.insert(i, (name, merged));
                proof {
                    assert(self@ =~~= spec_crate_merge_one(old(self)@, (entry.0@, entry.1.items@)));
                    if files_fn_ids_unique(old(self)@) && file_fn_ids_unique(entry.1.items@) {
                        assert forall|w: int| 0 <= w < self@.len() implies file_fn_ids_unique(
                            (#[trigger] self@[w]).1,
                        ) by {
                            if w == i as int {
                                assert(file_fn_ids_unique(view_before[w].1));
                                lemma_merge_items_unique(existing_items, entry.1.items@);
                            } else {
                                assert(self@[w] == view_before[w]);
                            }
                        }
                    }
                }
                return ;
            }
            i = i + 1;
        }
        proof {
            assert(!view_contains_name(self@, k));
        }
        self.0.push(entry);
        proof {
            assert(self@ =~~= spec_crate_merge_one(old(self)@, (entry.0@, entry.1.items@)));
            assert forall|a: int, b: int| 0 <= a < b < self@.len() implies (#[trigger] self@[a]).0
                != (#[trigger] self@[b]).0 by {
                if b == self@.len() - 1 {
                    assert(self@[a] == old(self)@[a]);
                }
            }
            if files_fn_ids_unique(old(self)@) && file_fn_ids_unique(entry.1.items@) {
                assert forall|w: int| 0 <= w < self@.len() implies file_fn_ids_unique(
                    (#[trigger] self@[w]).1,
                ) by {
                    if w < self@.len() - 1 {
                        assert(self@[w] == old(self)@[w]);
                    } else {
                        assert(self@[w].1 == entry.1.items@);
                    }
                }
            }
        }
    }
}

/// Appends the functions of `incoming` to `existing`, discarding functions
/// whose id is already present (first-seen wins).
fn merge_file_items(existing: File, incoming: File) -> (r: File)
    ensures
        r.items@ == spec_merge_items(existing.items@, incoming.items@),
{
    let ghost goal = spec_merge_items(existing.items@, incoming.items@);
    let mut out = existing;
    let mut incoming = incoming;
    while incoming.items.len() > 0
        invariant
            spec_merge_items(out.items@, incoming.items@) == goal,
        decreases incoming.items.len(),
    {
        let ghost incoming_before = incoming.items@;
        let f = incoming.items.remove(0);
        proof {
            assert(incoming_before.drop_first() =~= incoming.items@);
        }
        if !file_has_fn_id(&out, f.fn_id) {
            out.items.push(f);
        }
    }
    out
}

/// Whether the file already holds a function with the given id.
fn file_has_fn_id(file: &File, fn_id: u32) -> (r: bool)
    ensures
        r == file_contains_fn(file.items@, fn_id),
{
    let n = file.items.len();
    let mut i: usize = 0;
    while i < n
        invariant
            0 <= i <= n,
            n == file.items@.len(),
            forall|j: int| 0 <= j < i ==> (#[trigger] file.items@[j]).fn_id != fn_id,
        decreases n - i,
    {
        if file.items[i].fn_id == fn_id {
            return true;
        }
        i = i + 1;
    }
    false
}

/// Compares two strings character for character.
pub fn string_eq(a: &String, b: &String) -> (r: bool)
    ensures
        r == (a@ == b@),
{
    str_eq(a.as_str(), b.as_str())
}

/// Compares two string slices character for character.
pub fn str_eq(a: &str, b: &str) -> (r: bool)
    ensures
        r == (a@ == b@),
{
    let n = a.unicode_len();
    let m = b.unicode_len();
    if n != m {
        proof {
            assert(a@ != b@);
        }
        return false;
    }
    let mut i: usize = 0;
    while i < n
        invariant
            0 <= i <= n,
            n == a@.len(),
            n == b@.len(),
            forall|j: int| 0 <= j < i ==> a@[j] == b@[j],
        decreases n - i,
    {
        if a.get_char(i) != b.get_char(i) {
            proof {
                assert(a@[i as int] != b@[i as int]);
            }
            return false;
        }
        i = i + 1;
    }
    proof {
        assert(a@ =~= b@);
    }
    true
}

/// The per-workspace map from crate name to that crate's file map.
#[derive(Clone, Debug)]
pub struct Workspace(pub Vec<(String, Crate)>);

impl View for Workspace {
    type V = Seq<(Seq<char>, Seq<(Seq<char>, Seq<Function>)>)>;

    open spec fn view(&self) -> Seq<(Seq<char>, Seq<(Seq<char>, Seq<Function>)>)> {
        self.0@.map_values(|e: (String, Crate)| (e.0@, e.1@))
    }
}

/// One step of workspace merging: fold `entry` into `entries`.
pub open spec fn spec_workspace_merge_one(
    entries: Seq<(Seq<char>, Seq<(Seq<char>, Seq<Function>)>)>,
    entry: (Seq<char>, Seq<(Seq<char>, Seq<Function>)>),
) -> Seq<(Seq<char>, Seq<(Seq<char>, Seq<Function>)>)> {
    if view_contains_name(entries, entry.0) {
        let i = view_name_index(entries, entry.0);
        entries.update(i, (entries[i].0, spec_crate_merge(entries[i].1, entry.1)))
    } else {
        entries.push(entry)
    }
}

/// The result of merging the crate map `b` into `a`, crate by crate.
pub open spec fn spec_workspace_merge(
    a: Seq<(Seq<char>, Seq<(Seq<char>, Seq<Function>)>)>,
    b: Seq<(Seq<char>, Seq<(Seq<char>, Seq<Function>)>)>,
) -> Seq<(Seq<char>, Seq<(Seq<char>, Seq<Function>)>)>
    decreases b.len(),
{
    if b.len() == 0 {
        a
    } else {
        spec_workspace_merge(spec_workspace_merge_one(a, b[0]), b.drop_first())
    }
}

impl Workspace {
    /// Crate names are pairwise distinct, and each crate is well formed.
    pub open spec fn wf(&self) -> bool {
        &&& view_names_unique(self@)
        &&& forall|i: int| 0 <= i < self.0@.len() ==> (#[trigger] self.0@[i]).1.wf()
    }

    /// Creates an empty workspace.
    pub fn new() -> (r: Self)
        ensures
            r@ == Seq::<(Seq<char>, Seq<(Seq<char>, Seq<Function>)>)>::empty(),
            r.wf(),
    {
        let r = Workspace(Vec::new());
        proof {
            assert(r@ =~= Seq::<(Seq<char>, Seq<(Seq<char>, Seq<Function>)>)>::empty());
        }
        r
    }

    /// Merges every crate of `other` into this workspace.
    pub fn merge(&mut self, other: Self)
        requires
            old(self).wf(),
            forall|i: int| 0 <= i < other.0@.len() ==> (#[trigger] other.0@[i]).1.wf(),
        ensures
            final(self).wf(),
            final(self)@ == spec_workspace_merge(old(self)@, other@),
    {
        let ghost goal = spec_workspace_merge(old(self)@, other@);
        let mut other = other;
        while other.0.len() > 0
            invariant
                self.wf(),
                spec_workspace_merge(self@, other@) == goal,
                forall|i: int| 0 <= i < other.0@.len() ==> (#[trigger] other.0@[i]).1.wf(),
            decreases other.0.len(),
        {
            let ghost incoming_before = other@;
            let entry = other.0.remove(0);
            proof {
                assert(other@ =~~= incoming_before.drop_first());
                assert((entry.0@, entry.1@) == incoming_before[0]);
            }
            self.merge_entry(entry);
        }
    }

    /// Folds one (crate name, crate) pair into the workspace.
    fn merge_entry(&mut self, entry: (String, Crate))
        requires
            old(self).wf(),
            entry.1.wf(),
        ensures
            final(self).wf(),
            final(self)@ == spec_workspace_merge_one(old(self)@, (entry.0@, entry.1@)),
    {
        let ghost k = entry.0@;
        let n = self.0.len();
        let mut i: usize = 0;
        while i < n
            invariant
                0 <= i <= n,
                n == self.0@.len(),
                self == old(self),
                self.wf(),
                k == entry.0@,
                forall|j: int| 0 <= j < i ==> (#[trigger] self@[j]).0 != k,
            decreases n - i,
        {
            proof {
                assert(self@[i as int] == (self.0@[i as int].0@, self.0@[i as int].1@));
            }
            if string_eq(&self.0[i].0, &entry.0) {
                proof {
                    assert(view_contains_name(self@, k));
                    assert(view_name_index(self@, k) == i as int) by {
                        let w = view_name_index(self@, k);
                        assert(0 <= w < self@.len() && self@[w].0 == k);
                        if w != i as int {
                            assert(self@[i as int].0 == k);
                            assert(false);
                        }
                    }
                }
                let (name, mut existing) = self.0.remove(i);
                existing.merge(entry.1);
                self.0.insert(i, (name, existing));
                proof {
                    assert(self@ =~~= spec_workspace_merge_one(old(self)@, (entry.0@, entry.1@)));
                }
                return ;
            }
            i = i + 1;
        }
        proof {
            assert(!view_contains_name(self@, k));
        }
        self.0.push(entry);
        proof {
            assert(self@ =~~= spec_workspace_merge_one(old(self)@, (entry.0@, entry.1@)));
            assert forall|a: int, b: int| 0 <= a < b < self@.len() implies (#[trigger] self@[a]).0
                != (#[trigger] self@[b]).0 by {
                if b == self@.len() - 1 {
                    assert(self@[a] == old(self)@[a]);
                }
            }
        }
    }
}


/// Deep equality of two basic blocks: same statements, same terminator.
pub open spec fn bb_matches(a: MirBasicBlock, b: MirBasicBlock) -> bool {
    a.statements@ == b.statements@ && a.terminator == b.terminator
}

/// Deep equality of two declaration records: same variant with equal fields.
pub open spec fn decl_matches(a: MirDecl, b: MirDecl) -> bool {
    match (a, b) {
        (
            MirDecl::User {
                local: la,
                name: na,
                span: sa,
                ty: ta,
                lives: va,
                shared_borrow: ha,
                mutable_borrow: ma,
                drop: da,
                drop_range: ra,
                must_live_at: ua,
            },
            MirDecl::User {
                local: lb,
                name: nb,
                span: sb,
                ty: tb,
                lives: vb,
                shared_borrow: hb,
                mutable_borrow: mb,
                drop: db,
                drop_range: rb,
                must_live_at: ub,
            },
        ) => la == lb && na@ == nb@ && sa == sb && ta@ == tb@ && va@ == vb@ && ha@ == hb@ && ma@
            == mb@ && da == db && ra@ == rb@ && ua@ == ub@,
        (
            MirDecl::Other {
                local: la,
                ty: ta,
                lives: va,
                shared_borrow: ha,
                mutable_borrow: ma,
                drop: da,
                drop_range: ra,
                must_live_at: ua,
            },
            MirDecl::Other {
                local: lb,
                ty: tb,
                lives: vb,
                shared_borrow: hb,
                mutable_borrow: mb,
                drop: db,
                drop_range: rb,
                must_live_at: ub,
            },
        ) => la == lb && ta@ == tb@ && va@ == vb@ && ha@ == hb@ && ma@ == mb@ && da == db && ra@
            == rb@ && ua@ == ub@,
        _ => false,
    }
}

/// Deep equality of two functions: same id, blocks, and declarations.
pub open spec fn function_matches(a: Function, b: Function) -> bool {
    &&& a.fn_id == b.fn_id
    &&& a.basic_blocks@.len() == b.basic_blocks@.len()
    &&& forall|i: int|
        0 <= i < a.basic_blocks@.len() ==> bb_matches(
            #[trigger] a.basic_blocks@[i],
            b.basic_blocks@[i],
        )
    &&& a.decls@.len() == b.decls@.len()
    &&& forall|i: int|
        0 <= i < a.decls@.len() ==> decl_matches(#[trigger] a.decls@[i], b.decls@[i])
}

/// Copies a vector of copyable values.
pub fn copy_vec<T: Copy>(v: &Vec<T>) -> (r: Vec<T>)
    ensures
        r@ == v@,
{
    let n = v.len();
    let mut out: Vec<T> = Vec::new();
    let mut i: usize = 0;
    while i < n
        invariant
            0 <= i <= n,
            n == v@.len(),
            out@ == v@.take(i as int),
        decreases n - i,
    {
        out.push(v[i]);
        proof {
            assert(out@ =~= v@.take(i as int + 1));
        }
        i = i + 1;
    }
    proof {
        assert(v@.take(n as int) =~= v@);
    }
    out
}

/// Clones one basic block, preserving its contents.
pub fn clone_basic_block(bb: &MirBasicBlock) -> (r: MirBasicBlock)
    ensures
        bb_matches(r, *bb),
{
    let statements = copy_vec(&bb.statements);
    let terminator = match &bb.terminator {
        Some(t) => Some(*t),
        None => None,
    };
    MirBasicBlock { statements, terminator }
}

/// Clones one declaration record, preserving its contents.
pub fn clone_decl(d: &MirDecl) -> (r: MirDecl)
    ensures
        decl_matches(r, *d),
{
    match d {
        MirDecl::User {
            local,
            name,
            span,
            ty,
            lives,
            shared_borrow,
            mutable_borrow,
            drop,
            drop_range,
            must_live_at,
        } => MirDecl::User {
            local: *local,
            name: name.clone(),
            span: *span,
            ty: ty.clone(),
            lives: copy_vec(lives),
            shared_borrow: copy_vec(shared_borrow),
            mutable_borrow: copy_vec(mutable_borrow),
            drop: *drop,
            drop_range: copy_vec(drop_range),
            must_live_at: copy_vec(must_live_at),
        },
        MirDecl::Other {
            local,
            ty,
            lives,
            shared_borrow,
            mutable_borrow,
            drop,
            drop_range,
            must_live_at,
        } => MirDecl::Other {
            local: *local,
            ty: ty.clone(),
            lives: copy_vec(lives),
            shared_borrow: copy_vec(shared_borrow),
            mutable_borrow: copy_vec(mutable_borrow),
            drop: *drop,
            drop_range: copy_vec(drop_range),
            must_live_at: copy_vec(must_live_at),
        },
    }
}

/// Clones one function, preserving its contents.
pub fn clone_function(f: &Function) -> (r: Function)
    ensures
        function_matches(r, *f),
{
    let nb = f.basic_blocks.len();
    let mut basic_blocks: Vec<MirBasicBlock> = Vec::new();
    let mut i: usize = 0;
    while i < nb
        invariant
            0 <= i <= nb,
            nb == f.basic_blocks@.len(),
            basic_blocks@.len() == i,
            forall|j: int|
                0 <= j < i ==> bb_matches(#[trigger] basic_blocks@[j], f.basic_blocks@[j]),
        decreases nb - i,
    {
        basic_blocks.push(clone_basic_block(&f.basic_blocks[i]));
        i = i + 1;
    }
    let nd = f.decls.len();
    let mut decls: Vec<MirDecl> = Vec::new();
    let mut k: usize = 0;
    while k < nd
        invariant
            0 <= k <= nd,
            nd == f.decls@.len(),
            decls@.len() == k,
            forall|j: int| 0 <= j < k ==> decl_matches(#[trigger] decls@[j], f.decls@[j]),
        decreases nd - k,
    {
        decls.push(clone_decl(&f.decls[k]));
        k = k + 1;
    }
    Function { fn_id: f.fn_id, basic_blocks, decls }
}

} // verus!
