use vstd::prelude::*;

use crate::wasm::{ValueType, WasmEncodable};

use super::Section;

verus! {

/// A function signature as a pair of parameter types and result types.
pub type Signature = (Seq<ValueType>, Seq<ValueType>);

/// A function type: its parameter types and its result types.
pub struct FunctionType {
    pub parameters: Vec<ValueType>,
    pub results: Vec<ValueType>,
}

impl View for FunctionType {
    type V = Signature;

    open spec fn view(&self) -> Signature {
        (self.parameters@, self.results@)
    }
}

impl WasmEncodable for FunctionType {
    open spec fn encoding(&self) -> Seq<u8> {
        seq![0x60u8] + self.parameters.encoding() + self.results.encoding()
    }

    fn wasm_encode(&self) -> (r: Vec<u8>) {
        let mut result = vec![0x60u8];
        let mut parameters = self.parameters.wasm_encode();
        let mut results = self.results.wasm_encode();
        result.append(&mut parameters);
        result.append(&mut results);
        result
    }
}

impl FunctionType {
    pub fn new(parameters: Vec<ValueType>, results: Vec<ValueType>) -> (r: Self)
        ensures
            r@ == (parameters@, results@),
    {
        Self { parameters, results }
    }
}

fn same_types(a: &Vec<ValueType>, b: &Vec<ValueType>) -> (r: bool)
    ensures
        r == (a@ == b@),
{
    if a.len() != b.len() {
        return false;
    }
    let mut i: usize = 0;
    while i < a.len()
        invariant
            a@.len() == b@.len(),
            i <= a@.len(),
            forall|j: int| 0 <= j < i ==> a@[j] == b@[j],
        decreases a@.len() - i,
    {
        match (a[i], b[i]) {
            (ValueType::I32, ValueType::I32) => {},
        }
        i = i + 1;
    }
    assert(a@ =~= b@);
    true
}

/// The signatures of a type section after interning `signature`, with the index
/// that the signature has there: an equal signature already present is reused,
/// a new one is appended.
pub open spec fn interned(signatures: Seq<Signature>, signature: Signature) -> (Seq<Signature>, int) {
    if signatures.contains(signature) {
        (signatures, choose|i: int| 0 <= i < signatures.len() && signatures[i] == signature)
    } else {
        (signatures.push(signature), signatures.len() as int)
    }
}

proof fn lemma_interned_present(signatures: Seq<Signature>, signature: Signature, i: int)
    requires
        0 <= i < signatures.len(),
        signatures[i] == signature,
        distinct_signatures(signatures),
    ensures
        interned(signatures, signature) == (signatures, i),
{
    assert(signatures.contains(signature));
    let k = choose|k: int| 0 <= k < signatures.len() && signatures[k] == signature;
    assert(k == i) by {
        if k < i {
            assert(signatures[k] != signatures[i]);
        } else if k > i {
            assert(signatures[i] != signatures[k]);
        }
    }
}

/// No signature occurs twice in `signatures`.
pub open spec fn distinct_signatures(signatures: Seq<Signature>) -> bool {
    forall|i: int, j: int|
        0 <= i < j < signatures.len() ==> #[trigger] signatures[i] != #[trigger] signatures[j]
}

/// Interning keeps the signatures distinct, and the result holds the signature
/// at the returned index.
pub proof fn lemma_interned_wf(signatures: Seq<Signature>, signature: Signature)
    requires
        distinct_signatures(signatures),
    ensures
        distinct_signatures(interned(signatures, signature).0),
        0 <= interned(signatures, signature).1 < interned(signatures, signature).0.len(),
        interned(signatures, signature).0[interned(signatures, signature).1] == signature,
        interned(signatures, signature).0.len() <= signatures.len() + 1,
        signatures.is_prefix_of(interned(signatures, signature).0),
{
    if !signatures.contains(signature) {
        let s = signatures.push(signature);
        assert forall|i: int, j: int| 0 <= i < j < s.len() implies #[trigger] s[i] != #[trigger] s[j] by {
            if j == signatures.len() {
                assert(signatures[i] == s[i]);
            }
        }
        assert(signatures.is_prefix_of(s));
    } else {
        assert(signatures.is_prefix_of(signatures));
    }
}

/// Interning the same signature twice gives the same index both times and
/// leaves the signatures as the first call left them.
pub proof fn lemma_intern_twice(signatures: Seq<Signature>, signature: Signature)
    requires
        distinct_signatures(signatures),
    ensures
        interned(interned(signatures, signature).0, signature) == interned(signatures, signature),
{
    lemma_interned_wf(signatures, signature);
    let (s, i) = interned(signatures, signature);
    lemma_interned_present(s, signature, i);
}

/// Interning two different signatures, one after the other, gives two different
/// indices, each holding its own signature.
pub proof fn lemma_intern_different(signatures: Seq<Signature>, a: Signature, b: Signature)
    requires
        distinct_signatures(signatures),
        a != b,
    ensures
        ({
            let (s1, i) = interned(signatures, a);
            let (s2, j) = interned(s1, b);
            &&& i != j
            &&& s2[i] == a
            &&& s2[j] == b
        }),
{
    lemma_interned_wf(signatures, a);
    let (s1, i) = interned(signatures, a);
    lemma_interned_wf(s1, b);
    let (s2, j) = interned(s1, b);
    assert(s1[i] == s2[i]);
}

/// Section 1: the distinct function types of the module, in order of first use.
pub struct TypeSection {
    pub functions: Vec<FunctionType>,
}

impl View for TypeSection {
    type V = Seq<Signature>;

    open spec fn view(&self) -> Seq<Signature> {
        self.functions@.map_values(|f: FunctionType| f@)
    }
}

impl Default for TypeSection {
    fn default() -> (r: Self)
        ensures
            r@.len() == 0,
            r.wf(),
    {
        Self { functions: Vec::new() }
    }
}

impl TypeSection {
    /// No signature occurs twice.
    pub open spec fn wf(&self) -> bool {
        distinct_signatures(self@)
    }

    /// Interns the signature `(parameters, results)` and results its type index.
    pub fn add_function(&mut self, parameters: Vec<ValueType>, results: Vec<ValueType>) -> (r:
        usize)
        requires
            old(self).wf(),
        ensures
            final(self).wf(),
            (final(self)@, r as int) == interned(old(self)@, (parameters@, results@)),
            0 <= r < final(self)@.len(),
            final(self)@[r as int] == (parameters@, results@),
    {
        let function = FunctionType::new(parameters, results);
        let mut i: usize = 0;
        while i < self.functions.len()
            invariant
                i <= self@.len(),
                self.wf(),
                *self == *old(self),
                function@ == (parameters@, results@),
                self.functions@.len() == self@.len(),
                forall|j: int| 0 <= j < i ==> self@[j] != function@,
            decreases self@.len() - i,
        {
            let candidate = &self.functions[i];
            if same_types(&candidate.parameters, &function.parameters) && same_types(
                &candidate.results,
                &function.results,
            ) {
                proof {
                    assert(self@[i as int] == function@);
                    lemma_interned_present(old(self)@, (parameters@, results@), i as int);
                }
                return i;
            }
            i = i + 1;
        }
        let ghost before = self@;
        self.functions.push(function);
        proof {
            assert(self@ =~= before.push(function@));
            assert(!before.contains(function@));
        }
        self.functions.len() - 1
    }
}

impl Section for TypeSection {
    type Contents = Vec<FunctionType>;

    open spec fn spec_id() -> u8 {
        1
    }

    open spec fn spec_contents(&self) -> Vec<FunctionType> {
        self.functions
    }

    fn id() -> (r: u8) {
        1
    }

    fn contents(&self) -> (r: &Vec<FunctionType>) {
        &self.functions
    }
}

} // verus!
