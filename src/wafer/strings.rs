//! The string table: every distinct string literal of a program, laid out one
//! after another in the initial contents of linear memory.
use vstd::prelude::*;

use super::names::{block_literals, collect_block_literals, distinct_first, string_views, unique};
use super::symbols::{first_index, lemma_first_index_prefix};
use super::syntax::Declaration;

verus! {

/// The four little-endian bytes of `v` modulo `2^32`.
pub open spec fn le32(v: int) -> Seq<u8> {
    seq![
        (v % 256) as u8,
        ((v / 256) % 256) as u8,
        ((v / 65536) % 256) as u8,
        ((v / 16777216) % 256) as u8,
    ]
}

/// Each character as a 4-byte code unit.
pub open spec fn chars_bytes(s: Seq<char>) -> Seq<u8>
    decreases s.len(),
{
    if s.len() == 0 {
        Seq::empty()
    } else {
        chars_bytes(s.drop_last()) + le32(s.last() as u32 as int)
    }
}

/// A literal in memory: its length, then its characters, each as 4
/// little-endian bytes. The length counts characters, not UTF-8 bytes, so that a
/// literal has the layout of an `i32` array: its length, then its elements.
pub open spec fn literal_bytes(s: Seq<char>) -> Seq<u8> {
    le32(s.len() as int) + chars_bytes(s)
}

/// The literals laid out one after another.
pub open spec fn literals_data(literals: Seq<Seq<char>>) -> Seq<u8>
    decreases literals.len(),
{
    if literals.len() == 0 {
        Seq::empty()
    } else {
        literals_data(literals.drop_last()) + literal_bytes(literals.last())
    }
}

/// The string literals of a program in order of appearance, repeats included.
pub open spec fn program_literals(ds: Seq<Declaration>) -> Seq<Seq<char>>
    decreases ds.len(),
{
    if ds.len() == 0 {
        Seq::empty()
    } else {
        program_literals(ds.drop_last()) + match ds.last() {
            Declaration::Function(f) => block_literals(f.body),
            Declaration::Extern(_) => Seq::empty(),
        }
    }
}

/// The distinct literals of a program in order of first appearance.
pub open spec fn interned_literals(ds: Seq<Declaration>) -> Seq<Seq<char>> {
    distinct_first(program_literals(ds))
}

/// Where the literal `s` starts in the data of `literals`, if it is there.
pub open spec fn literal_offset(literals: Seq<Seq<char>>, s: Seq<char>) -> Option<int> {
    match first_index(literals, s) {
        Some(k) => Some(literals_data(literals.subrange(0, k as int)).len() as int),
        None => None,
    }
}

/// The string table of a program.
pub struct Strings {
    /// The distinct literals, in order of first appearance.
    pub literals: Vec<String>,
    /// Where each literal starts in `data`.
    pub offsets: Vec<usize>,
    pub data: Vec<u8>,
}

/// The four little-endian bytes of `v` modulo `2^32`.
pub fn le32_bytes(v: u64) -> (r: Vec<u8>)
    ensures
        r@ == le32(v as int),
{
    vec![(v % 256) as u8, ((v / 256) % 256) as u8, ((v / 65536) % 256) as u8, ((v / 16777216) % 256) as u8]
}

impl Strings {
    pub open spec fn wf(&self) -> bool {
        &&& self.offsets@.len() == self.literals@.len()
        &&& self.data@ == literals_data(string_views(self.literals@))
        &&& forall|k: int|
            0 <= k < self.offsets@.len() ==> #[trigger] self.offsets@[k] == literals_data(
                string_views(self.literals@).subrange(0, k),
            ).len()
    }

    /// Collects and lays out the string literals of a program.
    pub fn new(declarations: &Vec<Declaration>) -> (r: Self)
        ensures
            r.wf(),
            string_views(r.literals@) == interned_literals(declarations@),
    {
        let mut all: Vec<String> = Vec::new();
        let mut i: usize = 0;
        while i < declarations.len()
            invariant
                i <= declarations@.len(),
                string_views(all@) == program_literals(declarations@.subrange(0, i as int)),
            decreases declarations@.len() - i,
        {
            assert(declarations@.subrange(0, i + 1).drop_last() =~= declarations@.subrange(0, i as int));
            match &declarations[i] {
                Declaration::Function(f) => collect_block_literals(&f.body, &mut all),
                Declaration::Extern(_) => {
                    assert(string_views(all@) + Seq::empty() =~= string_views(all@));
                },
            }
            i = i + 1;
        }
        assert(declarations@.subrange(0, declarations@.len() as int) =~= declarations@);
        let literals = unique(all);
        let mut offsets: Vec<usize> = Vec::new();
        let mut data: Vec<u8> = Vec::new();
        let mut k: usize = 0;
        while k < literals.len()
            invariant
                k <= literals@.len(),
                offsets@.len() == k,
                data@ == literals_data(string_views(literals@).subrange(0, k as int)),
                forall|j: int|
                    0 <= j < k ==> #[trigger] offsets@[j] == literals_data(
                        string_views(literals@).subrange(0, j),
                    ).len(),
            decreases literals@.len() - k,
        {
            offsets.push(data.len());
            let literal = literals[k].as_str();
            let n = literal.unicode_len();
            let mut bytes = le32_bytes(n as u64);
            let mut c: usize = 0;
            assert(literal@.subrange(0, 0) =~= Seq::<char>::empty());
            while c < n
                invariant
                    n == literal@.len(),
                    c <= n,
                    bytes@ == le32(n as int) + chars_bytes(literal@.subrange(0, c as int)),
                decreases n - c,
            {
                let mut unit = le32_bytes(literal.get_char(c) as u32 as u64);
                assert(literal@.subrange(0, c + 1).drop_last() =~= literal@.subrange(0, c as int));
                bytes.append(&mut unit);
                c = c + 1;
            }
            assert(literal@.subrange(0, n as int) =~= literal@);
            data.append(&mut bytes);
            assert(string_views(literals@).subrange(0, k + 1).drop_last() =~= string_views(literals@).subrange(0, k as int));
            k = k + 1;
        }
        assert(string_views(literals@).subrange(0, literals@.len() as int) =~= string_views(literals@));
        Strings { literals, offsets, data }
    }

    /// Where the literal `string` starts in memory.
    pub fn offset(&self, string: &str) -> (r: Option<i32>)
        requires
            self.wf(),
            self.data@.len() <= i32::MAX,
        ensures
            r == match literal_offset(string_views(self.literals@), string@) {
                Some(o) => Some(o as i32),
                None => None,
            },
    {
        let ghost views = string_views(self.literals@);
        let key = string.to_owned();
        let mut k: usize = 0;
        assert(views.subrange(0, 0) =~= Seq::<Seq<char>>::empty());
        while k < self.literals.len()
            invariant
                key@ == string@,
                self.wf(),
                views == string_views(self.literals@),
                k <= self.literals@.len(),
                first_index(views.subrange(0, k as int), string@) is None,
            decreases self.literals@.len() - k,
        {
            assert(views.subrange(0, k + 1).drop_last() =~= views.subrange(0, k as int));
            if self.literals[k] == key {
                proof {
                    lemma_first_index_prefix(views, string@, k + 1);
                    lemma_literals_data_prefix(views, k as int);
                }
                return Some(self.offsets[k] as i32);
            }
            k = k + 1;
        }
        assert(views.subrange(0, views.len() as int) =~= views);
        None
    }

    /// The size of the data in bytes; the first free address after it.
    pub fn len(&self) -> (r: i32)
        requires
            self.data@.len() <= i32::MAX,
        ensures
            r == self.data@.len(),
    {
        self.data.len() as i32
    }

    pub fn into_bytes(self) -> (r: Vec<u8>)
        ensures
            r@ == self.data@,
    {
        self.data
    }
}

/// The data of some of the literals is no longer than that of all of them.
proof fn lemma_literals_data_prefix(literals: Seq<Seq<char>>, k: int)
    requires
        0 <= k <= literals.len(),
    ensures
        literals_data(literals.subrange(0, k)).len() <= literals_data(literals).len(),
    decreases literals.len() - k,
{
    if k < literals.len() {
        assert(literals.subrange(0, k + 1).drop_last() =~= literals.subrange(0, k));
        lemma_literals_data_prefix(literals, k + 1);
    } else {
        assert(literals.subrange(0, k) =~= literals);
    }
}

} // verus!
