//! Options for writing and reading documents.

use vstd::prelude::*;
use vstd::string::StringExecFns;

verus! {

/// How a document's root compound is named when it is written.
pub struct SerOpts {
    root_name: String,
    serialize_root_name: bool,
}

/// What a [`SerOpts`] says: the root compound's name, and whether it has
/// one at all.
pub struct SerOptsView {
    pub root_name: Seq<char>,
    pub serialize_root_name: bool,
}

/// What [`SerOpts::new`] says: a root compound with an empty name.
pub open spec fn default_ser_opts() -> SerOptsView {
    SerOptsView { root_name: Seq::empty(), serialize_root_name: true }
}

impl View for SerOpts {
    type V = SerOptsView;

    closed spec fn view(&self) -> SerOptsView {
        SerOptsView { root_name: self.root_name@, serialize_root_name: self.serialize_root_name }
    }
}

impl SerOpts {
    /// A root compound with an empty name.
    pub fn new() -> (opts: Self)
        ensures
            opts@ == default_ser_opts(),
    {
        Self { root_name: String::new(), serialize_root_name: true }
    }

    /// "Network NBT": the root compound has no name at all.
    pub fn network_nbt() -> (opts: Self)
        ensures
            opts@.root_name == Seq::<char>::empty(),
            !opts@.serialize_root_name,
    {
        Self::new().serialize_root_compound_name(false)
    }

    /// Whether the root compound's name is written.
    pub fn serialize_root_compound_name(self, serialize_root_name: bool) -> (opts: Self)
        ensures
            opts@.root_name == self@.root_name,
            opts@.serialize_root_name == serialize_root_name,
    {
        Self { root_name: self.root_name, serialize_root_name }
    }

    /// Names the root compound, which also turns its name on.
    pub fn root_name(self, root_name: &str) -> (opts: Self)
        ensures
            opts@.root_name == root_name@,
            opts@.serialize_root_name,
    {
        Self { root_name: String::from_str(root_name), serialize_root_name: true }
    }

    /// The root compound's name, `None` when it is left out.
    pub fn into_root_name(self) -> (name: Option<String>)
        ensures
            self@.serialize_root_name ==> (name matches Some(n) && n@ == self@.root_name),
            !self@.serialize_root_name ==> name is None,
    {
        if self.serialize_root_name {
            Some(self.root_name)
        } else {
            None
        }
    }

    /// The root compound's name, `None` when it is left out.
    pub fn name(&self) -> (name: Option<&str>)
        ensures
            self@.serialize_root_name ==> (name matches Some(n) && n@ == self@.root_name),
            !self@.serialize_root_name ==> name is None,
    {
        if self.serialize_root_name {
            Some(self.root_name.as_str())
        } else {
            None
        }
    }
}

impl Default for SerOpts {
    fn default() -> (opts: Self)
        ensures
            opts@.root_name == Seq::<char>::empty(),
            opts@.serialize_root_name,
    {
        Self::new()
    }
}

/// Limits and layout for reading a document.
#[derive(Debug, Clone, Copy)]
pub struct DeOpts {
    max_seq_len: usize,
    max_depth: usize,
    expect_compound_names: bool,
}

/// What a [`DeOpts`] says.
pub struct DeOptsView {
    /// The longest list or array accepted.
    pub max_seq_len: usize,
    /// The deepest nesting of lists and compounds accepted.
    pub max_depth: usize,
    /// Whether the root compound has a name to skip.
    pub expect_compound_names: bool,
}

/// What [`DeOpts::new`] says.
pub open spec fn default_de_opts() -> DeOptsView {
    DeOptsView { max_seq_len: 100_000_000, max_depth: 512, expect_compound_names: true }
}

impl View for DeOpts {
    type V = DeOptsView;

    closed spec fn view(&self) -> DeOptsView {
        DeOptsView {
            max_seq_len: self.max_seq_len,
            max_depth: self.max_depth,
            expect_compound_names: self.expect_compound_names,
        }
    }
}

impl DeOpts {
    /// Lists and arrays of up to a hundred million elements, nesting up to
    /// 512 levels deep, and a named root compound.
    pub fn new() -> (opts: Self)
        ensures
            opts@ == default_de_opts(),
    {
        Self { max_seq_len: 100_000_000, max_depth: 512, expect_compound_names: true }
    }

    /// "Network NBT": the root compound has no name at all.
    pub fn network_nbt() -> (opts: Self)
        ensures
            opts@.max_seq_len == 100_000_000,
            opts@.max_depth == 512,
            !opts@.expect_compound_names,
    {
        Self::new().expect_compound_names(false)
    }

    /// The longest list or array accepted.
    pub fn max_seq_len(self, max_seq_len: usize) -> (opts: Self)
        ensures
            opts@ == (DeOptsView { max_seq_len, ..self@ }),
    {
        Self { max_seq_len, ..self }
    }

    /// The deepest nesting of lists and compounds accepted.
    ///
    /// Reading a document recurses once per level, so a bound is what keeps
    /// untrusted input from overflowing the stack; the default 512 is the
    /// depth Minecraft itself accepts.
    pub fn max_depth(self, max_depth: usize) -> (opts: Self)
        ensures
            opts@ == (DeOptsView { max_depth, ..self@ }),
    {
        Self { max_depth, ..self }
    }

    /// Whether the root compound has a name to skip.
    pub fn expect_compound_names(self, expect_compound_names: bool) -> (opts: Self)
        ensures
            opts@ == (DeOptsView { expect_compound_names, ..self@ }),
    {
        Self { expect_compound_names, ..self }
    }

    /// The longest list or array accepted.
    pub fn seq_limit(&self) -> (limit: usize)
        ensures
            limit == self@.max_seq_len,
    {
        self.max_seq_len
    }

    /// The deepest nesting of lists and compounds accepted.
    pub fn depth_limit(&self) -> (limit: usize)
        ensures
            limit == self@.max_depth,
    {
        self.max_depth
    }

    /// Whether the root compound has a name to skip.
    pub fn names_expected(&self) -> (expected: bool)
        ensures
            expected == self@.expect_compound_names,
    {
        self.expect_compound_names
    }
}

impl Default for DeOpts {
    fn default() -> (opts: Self)
        ensures
            opts@.max_seq_len == 100_000_000,
            opts@.max_depth == 512,
            opts@.expect_compound_names,
    {
        Self::new()
    }
}

} // verus!
