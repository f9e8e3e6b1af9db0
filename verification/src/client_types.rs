//! The values the engine stores, and the objects built from them.
//!
//! Floating-point attribute shapes are deliberately absent here: the
//! verified core handles the integer, string, list, set, map and
//! document shapes, and an embedding application may extend the surface
//! with the floating-point ones.

use vstd::prelude::*;

verus! {

use vstd::string::StringSliceAdditionalSpecFns;

/// The mathematical shape of a [`HyperValue`]: the same variants over
/// sequences instead of vectors.
pub enum ValueModel {
    VString(Seq<u8>),
    VInt(i64),
    VListString(Seq<Seq<u8>>),
    VListInt(Seq<i64>),
    VSetString(Seq<Seq<u8>>),
    VSetInt(Seq<i64>),
    VMapStringString(Seq<(Seq<u8>, Seq<u8>)>),
    VMapStringInt(Seq<(Seq<u8>, i64)>),
    VMapIntString(Seq<(i64, Seq<u8>)>),
    VMapIntInt(Seq<(i64, i64)>),
    VDocument(Seq<u8>),
}

/// Types of values that the engine accepts.
///
/// Strings are byte strings.  A document holds the bytes of its JSON
/// text.  Sets and maps are kept in the engine's canonical order:
/// elements and keys strictly increasing, so order carries no
/// information and duplicates cannot occur.
#[derive(Debug, PartialEq)]
pub enum HyperValue {
    HyperString(Vec<u8>),
    HyperInt(i64),
    HyperListString(Vec<Vec<u8>>),
    HyperListInt(Vec<i64>),
    HyperSetString(Vec<Vec<u8>>),
    HyperSetInt(Vec<i64>),
    HyperMapStringString(Vec<(Vec<u8>, Vec<u8>)>),
    HyperMapStringInt(Vec<(Vec<u8>, i64)>),
    HyperMapIntString(Vec<(i64, Vec<u8>)>),
    HyperMapIntInt(Vec<(i64, i64)>),
    HyperDocument(Vec<u8>),
}

impl DeepView for HyperValue {
    type V = ValueModel;

    open spec fn deep_view(&self) -> ValueModel {
        match self {
            HyperValue::HyperString(b) => ValueModel::VString(b.deep_view()),
            HyperValue::HyperInt(i) => ValueModel::VInt(*i),
            HyperValue::HyperListString(l) => ValueModel::VListString(l.deep_view()),
            HyperValue::HyperListInt(l) => ValueModel::VListInt(l.deep_view()),
            HyperValue::HyperSetString(s) => ValueModel::VSetString(s.deep_view()),
            HyperValue::HyperSetInt(s) => ValueModel::VSetInt(s.deep_view()),
            HyperValue::HyperMapStringString(m) => ValueModel::VMapStringString(m.deep_view()),
            HyperValue::HyperMapStringInt(m) => ValueModel::VMapStringInt(m.deep_view()),
            HyperValue::HyperMapIntString(m) => ValueModel::VMapIntString(m.deep_view()),
            HyperValue::HyperMapIntInt(m) => ValueModel::VMapIntInt(m.deep_view()),
            HyperValue::HyperDocument(d) => ValueModel::VDocument(d.deep_view()),
        }
    }
}

/// Strict lexicographic order on byte strings; the order in which the
/// engine keeps the elements of a string set.
pub open spec fn bytes_lt(a: Seq<u8>, b: Seq<u8>) -> bool
    decreases a.len(),
{
    if b.len() == 0 {
        false
    } else if a.len() == 0 {
        true
    } else if a[0] < b[0] {
        true
    } else if a[0] > b[0] {
        false
    } else {
        bytes_lt(a.skip(1), b.skip(1))
    }
}

/// Every element of a string set is strictly below its successor.
pub open spec fn set_string_sorted(s: Seq<Seq<u8>>) -> bool {
    forall|i: int| 0 <= i && i + 1 < s.len() ==> bytes_lt(#[trigger] s[i], s[i + 1])
}

/// Every element of an integer set is strictly below its successor.
pub open spec fn set_int_sorted(s: Seq<i64>) -> bool {
    forall|i: int| 0 <= i && i + 1 < s.len() ==> #[trigger] s[i] < s[i + 1]
}

/// Every key of a byte-string-keyed map is strictly below its
/// successor.
pub open spec fn map_bytes_keys_sorted<V>(s: Seq<(Seq<u8>, V)>) -> bool {
    forall|i: int| 0 <= i && i + 1 < s.len() ==> bytes_lt((#[trigger] s[i]).0, s[i + 1].0)
}

/// Every key of an integer-keyed map is strictly below its successor.
pub open spec fn map_int_keys_sorted<V>(s: Seq<(i64, V)>) -> bool {
    forall|i: int| 0 <= i && i + 1 < s.len() ==> (#[trigger] s[i]).0 < s[i + 1].0
}

/// A value is valid when any set or map inside it is in the engine's
/// canonical order.
pub open spec fn value_valid(m: ValueModel) -> bool {
    match m {
        ValueModel::VSetString(s) => set_string_sorted(s),
        ValueModel::VSetInt(s) => set_int_sorted(s),
        ValueModel::VMapStringString(s) => map_bytes_keys_sorted(s),
        ValueModel::VMapStringInt(s) => map_bytes_keys_sorted(s),
        ValueModel::VMapIntString(s) => map_int_keys_sorted(s),
        ValueModel::VMapIntInt(s) => map_int_keys_sorted(s),
        _ => true,
    }
}

/// Copies a byte string.
pub fn clone_bytes(v: &Vec<u8>) -> (r: Vec<u8>)
    ensures
        r@ == v@,
{
    let mut r: Vec<u8> = Vec::new();
    let mut i: usize = 0;
    while i < v.len()
        invariant
            i <= v.len(),
            r@ == v@.subrange(0, i as int),
        decreases v.len() - i,
    {
        r.push(v[i]);
        proof {
            assert(v@.subrange(0, i + 1 as int) =~= v@.subrange(0, i as int).push(v@[i as int]));
        }
        i = i + 1;
    }
    proof {
        assert(r@ =~= v@);
    }
    r
}

/// Copies a vector of byte strings.
pub fn clone_byte_lists(v: &Vec<Vec<u8>>) -> (r: Vec<Vec<u8>>)
    ensures
        r.deep_view() == v.deep_view(),
{
    let mut r: Vec<Vec<u8>> = Vec::new();
    let mut i: usize = 0;
    while i < v.len()
        invariant
            i <= v.len(),
            r@.len() == i as int,
            forall|j: int| 0 <= j < i ==> (#[trigger] r@[j])@ == v@[j]@,
        decreases v.len() - i,
    {
        r.push(clone_bytes(&v[i]));
        i = i + 1;
    }
    proof {
        assert forall|j: int| 0 <= j < v@.len() implies #[trigger] r.deep_view()[j]
            == v.deep_view()[j] by {
            assert(r@[j]@ == v@[j]@);
            assert(r@[j].deep_view() =~= r@[j]@);
            assert(v@[j].deep_view() =~= v@[j]@);
        }
        assert(r.deep_view() =~= v.deep_view());
    }
    r
}

/// Copies a vector of integers.
pub fn clone_ints(v: &Vec<i64>) -> (r: Vec<i64>)
    ensures
        r@ == v@,
{
    let mut r: Vec<i64> = Vec::new();
    let mut i: usize = 0;
    while i < v.len()
        invariant
            i <= v.len(),
            r@ == v@.subrange(0, i as int),
        decreases v.len() - i,
    {
        r.push(v[i]);
        proof {
            assert(v@.subrange(0, i + 1 as int) =~= v@.subrange(0, i as int).push(v@[i as int]));
        }
        i = i + 1;
    }
    proof {
        assert(r@ =~= v@);
    }
    r
}

/// Copies a vector of byte-string pairs.
pub fn clone_bytes_bytes_pairs(v: &Vec<(Vec<u8>, Vec<u8>)>) -> (r: Vec<(Vec<u8>, Vec<u8>)>)
    ensures
        r.deep_view() == v.deep_view(),
{
    let mut r: Vec<(Vec<u8>, Vec<u8>)> = Vec::new();
    let mut i: usize = 0;
    while i < v.len()
        invariant
            i <= v.len(),
            r@.len() == i as int,
            forall|j: int|
                0 <= j < i ==> (#[trigger] r@[j]).0@ == v@[j].0@ && r@[j].1@ == v@[j].1@,
        decreases v.len() - i,
    {
        r.push((clone_bytes(&v[i].0), clone_bytes(&v[i].1)));
        i = i + 1;
    }
    proof {
        assert forall|j: int| 0 <= j < v@.len() implies #[trigger] r.deep_view()[j]
            == v.deep_view()[j] by {
            assert(r@[j].0.deep_view() =~= v@[j].0.deep_view());
            assert(r@[j].1.deep_view() =~= v@[j].1.deep_view());
        }
        assert(r.deep_view() =~= v.deep_view());
    }
    r
}

/// Copies a vector of byte-string-keyed integer entries.
pub fn clone_bytes_int_pairs(v: &Vec<(Vec<u8>, i64)>) -> (r: Vec<(Vec<u8>, i64)>)
    ensures
        r.deep_view() == v.deep_view(),
{
    let mut r: Vec<(Vec<u8>, i64)> = Vec::new();
    let mut i: usize = 0;
    while i < v.len()
        invariant
            i <= v.len(),
            r@.len() == i as int,
            forall|j: int|
                0 <= j < i ==> (#[trigger] r@[j]).0@ == v@[j].0@ && r@[j].1 == v@[j].1,
        decreases v.len() - i,
    {
        r.push((clone_bytes(&v[i].0), v[i].1));
        i = i + 1;
    }
    proof {
        assert forall|j: int| 0 <= j < v@.len() implies #[trigger] r.deep_view()[j]
            == v.deep_view()[j] by {
            assert(r@[j].0.deep_view() =~= v@[j].0.deep_view());
        }
        assert(r.deep_view() =~= v.deep_view());
    }
    r
}

/// Copies a vector of integer-keyed byte-string entries.
pub fn clone_int_bytes_pairs(v: &Vec<(i64, Vec<u8>)>) -> (r: Vec<(i64, Vec<u8>)>)
    ensures
        r.deep_view() == v.deep_view(),
{
    let mut r: Vec<(i64, Vec<u8>)> = Vec::new();
    let mut i: usize = 0;
    while i < v.len()
        invariant
            i <= v.len(),
            r@.len() == i as int,
            forall|j: int|
                0 <= j < i ==> (#[trigger] r@[j]).0 == v@[j].0 && r@[j].1@ == v@[j].1@,
        decreases v.len() - i,
    {
        r.push((v[i].0, clone_bytes(&v[i].1)));
        i = i + 1;
    }
    proof {
        assert forall|j: int| 0 <= j < v@.len() implies #[trigger] r.deep_view()[j]
            == v.deep_view()[j] by {
            assert(r@[j].1.deep_view() =~= v@[j].1.deep_view());
        }
        assert(r.deep_view() =~= v.deep_view());
    }
    r
}

/// Copies a vector of integer pairs.
pub fn clone_int_pairs(v: &Vec<(i64, i64)>) -> (r: Vec<(i64, i64)>)
    ensures
        r@ == v@,
{
    let mut r: Vec<(i64, i64)> = Vec::new();
    let mut i: usize = 0;
    while i < v.len()
        invariant
            i <= v.len(),
            r@ == v@.subrange(0, i as int),
        decreases v.len() - i,
    {
        r.push(v[i]);
        proof {
            assert(v@.subrange(0, i + 1 as int) =~= v@.subrange(0, i as int).push(v@[i as int]));
        }
        i = i + 1;
    }
    proof {
        assert(r@ =~= v@);
    }
    r
}

impl Clone for HyperValue {
    /// A clone carries the same mathematical value.
    fn clone(&self) -> (r: HyperValue)
        ensures
            r.deep_view() == self.deep_view(),
    {
        match self {
            HyperValue::HyperString(b) => HyperValue::HyperString(clone_bytes(b)),
            HyperValue::HyperInt(i) => HyperValue::HyperInt(*i),
            HyperValue::HyperListString(l) => HyperValue::HyperListString(clone_byte_lists(l)),
            HyperValue::HyperListInt(l) => HyperValue::HyperListInt(clone_ints(l)),
            HyperValue::HyperSetString(s) => HyperValue::HyperSetString(clone_byte_lists(s)),
            HyperValue::HyperSetInt(s) => HyperValue::HyperSetInt(clone_ints(s)),
            HyperValue::HyperMapStringString(m) => HyperValue::HyperMapStringString(
                clone_bytes_bytes_pairs(m),
            ),
            HyperValue::HyperMapStringInt(m) => HyperValue::HyperMapStringInt(
                clone_bytes_int_pairs(m),
            ),
            HyperValue::HyperMapIntString(m) => HyperValue::HyperMapIntString(
                clone_int_bytes_pairs(m),
            ),
            HyperValue::HyperMapIntInt(m) => HyperValue::HyperMapIntInt(clone_int_pairs(m)),
            HyperValue::HyperDocument(d) => HyperValue::HyperDocument(clone_bytes(d)),
        }
    }
}

/// Conversion into a byte string, as the engine stores string values.
pub trait ToByteVec {
    /// The bytes the conversion yields.
    spec fn bytes_model(&self) -> Seq<u8>;

    /// Converts to an owned byte string.
    fn to_bytes(&self) -> (b: Vec<u8>)
        ensures
            b@ == self.bytes_model(),
    ;
}

impl ToByteVec for Vec<u8> {
    open spec fn bytes_model(&self) -> Seq<u8> {
        self@
    }

    fn to_bytes(&self) -> (b: Vec<u8>) {
        clone_bytes(self)
    }
}

impl ToByteVec for String {
    open spec fn bytes_model(&self) -> Seq<u8> {
        vstd::utf8::encode_utf8(self@)
    }

    fn to_bytes(&self) -> (b: Vec<u8>) {
        let s: &str = self.as_str();
        let bytes: &[u8] = s.as_bytes();
        slice_to_bytes(bytes)
    }
}

impl ToByteVec for &str {
    open spec fn bytes_model(&self) -> Seq<u8> {
        self.spec_bytes()
    }

    fn to_bytes(&self) -> (b: Vec<u8>) {
        let bytes: &[u8] = self.as_bytes();
        slice_to_bytes(bytes)
    }
}

/// Copies a byte slice into an owned byte string.
pub fn slice_to_bytes(s: &[u8]) -> (r: Vec<u8>)
    ensures
        r@ == s@,
{
    let mut r: Vec<u8> = Vec::new();
    let mut i: usize = 0;
    while i < s.len()
        invariant
            i <= s.len(),
            r@ == s@.subrange(0, i as int),
        decreases s.len() - i,
    {
        r.push(s[i]);
        proof {
            assert(s@.subrange(0, i + 1 as int) =~= s@.subrange(0, i as int).push(s@[i as int]));
        }
        i = i + 1;
    }
    proof {
        assert(r@ =~= s@);
    }
    r
}

/// For byte vectors the deep view is the view itself.
pub proof fn lemma_bytes_deep_view(v: &Vec<u8>)
    ensures
        v.deep_view() == v@,
{
    assert(v.deep_view() =~= v@);
}

/// For integer vectors the deep view is the view itself.
pub proof fn lemma_ints_deep_view(v: &Vec<i64>)
    ensures
        v.deep_view() == v@,
{
    assert(v.deep_view() =~= v@);
}

/// Conversion into an engine value.
pub trait ToHyperValue {
    /// The mathematical value the conversion yields.
    spec fn hyper_model(&self) -> ValueModel;

    /// Converts to an engine value.
    fn to_hyper(self) -> (v: HyperValue)
        ensures
            v.deep_view() == self.hyper_model(),
    ;
}

impl ToHyperValue for &str {
    open spec fn hyper_model(&self) -> ValueModel {
        ValueModel::VString(self.spec_bytes())
    }

    fn to_hyper(self) -> (v: HyperValue) {
        let b = self.to_bytes();
        proof {
            lemma_bytes_deep_view(&b);
        }
        HyperValue::HyperString(b)
    }
}

impl ToHyperValue for String {
    open spec fn hyper_model(&self) -> ValueModel {
        ValueModel::VString(vstd::utf8::encode_utf8(self@))
    }

    fn to_hyper(self) -> (v: HyperValue) {
        let b = self.to_bytes();
        proof {
            lemma_bytes_deep_view(&b);
        }
        HyperValue::HyperString(b)
    }
}

impl ToHyperValue for Vec<u8> {
    open spec fn hyper_model(&self) -> ValueModel {
        ValueModel::VString(self@)
    }

    fn to_hyper(self) -> (v: HyperValue) {
        proof {
            lemma_bytes_deep_view(&self);
        }
        HyperValue::HyperString(self)
    }
}

impl ToHyperValue for i64 {
    open spec fn hyper_model(&self) -> ValueModel {
        ValueModel::VInt(*self)
    }

    fn to_hyper(self) -> (v: HyperValue) {
        HyperValue::HyperInt(self)
    }
}

impl ToHyperValue for Vec<i64> {
    open spec fn hyper_model(&self) -> ValueModel {
        ValueModel::VListInt(self@)
    }

    fn to_hyper(self) -> (v: HyperValue) {
        proof {
            lemma_ints_deep_view(&self);
        }
        HyperValue::HyperListInt(self)
    }
}

impl ToHyperValue for Vec<Vec<u8>> {
    open spec fn hyper_model(&self) -> ValueModel {
        ValueModel::VListString(self.deep_view())
    }

    fn to_hyper(self) -> (v: HyperValue) {
        HyperValue::HyperListString(self)
    }
}

/// Whether a byte string is the UTF-8 text of one valid JSON document.
pub uninterp spec fn is_json(b: Seq<u8>) -> bool;

/// How many opening brackets a text holds.  The JSON parser recurses
/// once for each array or object it opens, and each such opening
/// consumes one `[` or `{` byte of the input, so this count bounds the
/// parser's recursion depth from above.
pub open spec fn spec_open_brackets(b: Seq<u8>) -> int
    decreases b.len(),
{
    if b.len() == 0 {
        0
    } else {
        spec_open_brackets(b.drop_last()) + if b.last() == 91 || b.last() == 123 {
            1int
        } else {
            0int
        }
    }
}

/// The most opening brackets a document's text may hold.  The JSON
/// parser has no depth limit of its own and would exhaust the call
/// stack on deeply nested text; this bound keeps its recursion far
/// below any stack, at the price of refusing very wide documents too.
pub const JSON_NESTING_LIMIT: usize = 1000;

/// The longest text a document may hold.  The JSON parser records each
/// object key as sixteen-bit offsets into a shared key buffer and adds
/// them unchecked; text no longer than this keeps every such offset,
/// length and sum exact.
pub const JSON_TEXT_LIMIT: usize = 65535;

/// Nineteen decimal digits begin at position `i` of the text.
pub open spec fn spec_long_digit_run(b: Seq<u8>, i: int) -> bool {
    &&& i + 19 <= b.len()
    &&& forall|k: int| i <= k < i + 19 ==> 48 <= #[trigger] b[k] <= 57
}

/// Nowhere does an exponent marker precede a run of nineteen or more
/// digits, directly or past a sign: the JSON parser accumulates an
/// exponent's digits into a machine word unchecked, and eighteen
/// digits stay below its bound.  The scan is over raw bytes, so a
/// marker inside a string literal counts too: this refuses a few more
/// texts than the parser would mishandle.
pub open spec fn spec_exponents_bounded(b: Seq<u8>) -> bool {
    forall|i: int|
        0 <= i < b.len() && ((#[trigger] b[i]) == 101 || b[i] == 69) ==> !spec_long_digit_run(
            b,
            i + 1,
        ) && !spec_long_digit_run(b, i + 2)
}

/// Whether nineteen decimal digits begin at position `i`.
#[verifier::loop_isolation(false)]
fn long_digit_run_at(b: &Vec<u8>, i: usize) -> (r: bool)
    ensures
        r == spec_long_digit_run(b@, i as int),
{
    if b.len() < 19 || i > b.len() - 19 {
        return false;
    }
    let mut k: usize = 0;
    while k < 19
        invariant
            i + 19 <= b@.len(),
            k <= 19,
            forall|t: int| i <= t < i + k ==> 48 <= #[trigger] b@[t] <= 57,
        decreases 19 - k,
    {
        let c = b[i + k];
        if c < 48 || c > 57 {
            return false;
        }
        k = k + 1;
    }
    true
}

/// Checks that no exponent marker precedes a long digit run.
#[verifier::loop_isolation(false)]
pub fn exponents_bounded(b: &Vec<u8>) -> (r: bool)
    ensures
        r == spec_exponents_bounded(b@),
{
    let mut i: usize = 0;
    while i < b.len()
        invariant
            i <= b@.len(),
            forall|t: int|
                0 <= t < i && ((#[trigger] b@[t]) == 101 || b@[t] == 69)
                    ==> !spec_long_digit_run(b@, t + 1) && !spec_long_digit_run(b@, t + 2),
        decreases b.len() - i,
    {
        let c = b[i];
        if c == 101 || c == 69 {
            if long_digit_run_at(b, i + 1) {
                return false;
            }
            if b.len() - i >= 2 && long_digit_run_at(b, i + 2) {
                return false;
            }
            proof {
                if b@.len() - i < 2 {
                    assert(!spec_long_digit_run(b@, i + 2));
                }
            }
        }
        i = i + 1;
    }
    true
}

/// Counts the opening brackets of a byte string.
pub fn open_brackets(b: &Vec<u8>) -> (n: usize)
    ensures
        n as int == spec_open_brackets(b@),
{
    let mut n: usize = 0;
    let mut i: usize = 0;
    while i < b.len()
        invariant
            i <= b.len(),
            n <= i,
            n as int == spec_open_brackets(b@.subrange(0, i as int)),
        decreases b.len() - i,
    {
        proof {
            assert(b@.subrange(0, i + 1 as int).drop_last() =~= b@.subrange(0, i as int));
            assert(b@.subrange(0, i + 1 as int).last() == b@[i as int]);
        }
        let byte = b[i];
        if byte == 91 || byte == 123 {
            n = n + 1;
        }
        i = i + 1;
    }
    proof {
        assert(b@.subrange(0, b@.len() as int) =~= b@);
    }
    n
}

/// Relies on rustc-serialize's `Json::from_str`: whether the text
/// parses as one JSON document depends on the bytes alone.  The parser
/// has no guards of its own, so the caller stays inside three bounds:
/// its recursion follows the opening brackets, kept under
/// [`JSON_NESTING_LIMIT`]; its object-key offsets are sixteen-bit
/// words, kept exact by [`JSON_TEXT_LIMIT`]; and its exponent
/// accumulator is a machine word, fed at most eighteen digits.
#[verifier::external_body]
fn json_check(b: &Vec<u8>) -> (r: bool)
    requires
        b@.len() <= JSON_TEXT_LIMIT,
        spec_open_brackets(b@) <= JSON_NESTING_LIMIT,
        spec_exponents_bounded(b@),
    ensures
        r == is_json(b@),
{
    match core::str::from_utf8(b) {
        Ok(s) => rustc_serialize::json::Json::from_str(s).is_ok(),
        Err(_) => false,
    }
}

impl HyperValue {
    /// Builds a document value from JSON text; refuses text that does
    /// not parse as one JSON document, and text outside the bounds the
    /// parser is never asked to walk: longer than [`JSON_TEXT_LIMIT`],
    /// more opening brackets than [`JSON_NESTING_LIMIT`], or an
    /// exponent marker before nineteen or more digits.
    pub fn document(text: Vec<u8>) -> (r: Option<HyperValue>)
        ensures
            match r {
                Some(v) => is_json(text@) && text@.len() <= JSON_TEXT_LIMIT
                    && spec_open_brackets(text@) <= JSON_NESTING_LIMIT && spec_exponents_bounded(
                    text@,
                ) && v.deep_view() == ValueModel::VDocument(text@),
                None => !is_json(text@) || text@.len() > JSON_TEXT_LIMIT || spec_open_brackets(
                    text@,
                ) > JSON_NESTING_LIMIT || !spec_exponents_bounded(text@),
            },
    {
        if text.len() > JSON_TEXT_LIMIT {
            return None;
        }
        if open_brackets(&text) > JSON_NESTING_LIMIT {
            return None;
        }
        if !exponents_bounded(&text) {
            return None;
        }
        if json_check(&text) {
            proof {
                lemma_bytes_deep_view(&text);
            }
            Some(HyperValue::HyperDocument(text))
        } else {
            None
        }
    }
}

/// The errors that can occur upon a lookup from a [`HyperObject`].
#[derive(Debug, Clone, Copy, PartialEq, Eq, Structural)]
pub enum HyperObjectKeyError {
    /// The key does not exist.
    KeyDoesNotExist,
    /// The key does exist, but the value is not of the requested shape.
    ObjectIsAnotherType,
}

impl HyperObjectKeyError {
    /// A short description of the error.
    pub fn message(&self) -> (s: &'static str)
        ensures
            self is KeyDoesNotExist ==> s@ == "the key does not exist"@,
            self is ObjectIsAnotherType ==> s@ == "the object is of another type"@,
    {
        match self {
            HyperObjectKeyError::KeyDoesNotExist => "the key does not exist",
            HyperObjectKeyError::ObjectIsAnotherType => "the object is of another type",
        }
    }
}

/// Conversion out of an engine value, keyed by the shape a caller asks
/// for.
pub trait FromHyperValue: Sized + DeepView {
    /// The content this shape extracts from a value, where the value
    /// has the right shape.
    spec fn extract(m: ValueModel) -> Option<Self::V>;

    /// Converts out of an engine value; fails when the value is of
    /// another shape.
    fn from_hyper(val: HyperValue) -> (r: Result<Self, HyperObjectKeyError>)
        ensures
            match r {
                Ok(x) => Self::extract(val.deep_view()) == Some(x.deep_view()),
                Err(e) => Self::extract(val.deep_view()) is None && e
                    == HyperObjectKeyError::ObjectIsAnotherType,
            },
    ;
}

impl FromHyperValue for Vec<u8> {
    open spec fn extract(m: ValueModel) -> Option<Seq<u8>> {
        match m {
            ValueModel::VString(b) => Some(b),
            _ => None,
        }
    }

    fn from_hyper(val: HyperValue) -> (r: Result<Vec<u8>, HyperObjectKeyError>) {
        match val {
            HyperValue::HyperString(b) => Ok(b),
            _ => Err(HyperObjectKeyError::ObjectIsAnotherType),
        }
    }
}

impl FromHyperValue for i64 {
    open spec fn extract(m: ValueModel) -> Option<i64> {
        match m {
            ValueModel::VInt(i) => Some(i),
            _ => None,
        }
    }

    fn from_hyper(val: HyperValue) -> (r: Result<i64, HyperObjectKeyError>) {
        match val {
            HyperValue::HyperInt(i) => Ok(i),
            _ => Err(HyperObjectKeyError::ObjectIsAnotherType),
        }
    }
}

impl FromHyperValue for Vec<i64> {
    open spec fn extract(m: ValueModel) -> Option<Seq<i64>> {
        match m {
            ValueModel::VListInt(l) => Some(l),
            _ => None,
        }
    }

    fn from_hyper(val: HyperValue) -> (r: Result<Vec<i64>, HyperObjectKeyError>) {
        match val {
            HyperValue::HyperListInt(l) => Ok(l),
            _ => Err(HyperObjectKeyError::ObjectIsAnotherType),
        }
    }
}

impl FromHyperValue for Vec<Vec<u8>> {
    open spec fn extract(m: ValueModel) -> Option<Seq<Seq<u8>>> {
        match m {
            ValueModel::VListString(l) => Some(l),
            _ => None,
        }
    }

    fn from_hyper(val: HyperValue) -> (r: Result<Vec<Vec<u8>>, HyperObjectKeyError>) {
        match val {
            HyperValue::HyperListString(l) => Ok(l),
            _ => Err(HyperObjectKeyError::ObjectIsAnotherType),
        }
    }
}

/// One attribute of an object: a name and its value.
#[derive(Debug, PartialEq)]
pub struct ObjectEntry {
    pub name: String,
    pub value: HyperValue,
}

impl DeepView for ObjectEntry {
    type V = (Seq<char>, ValueModel);

    open spec fn deep_view(&self) -> (Seq<char>, ValueModel) {
        (self.name@, self.value.deep_view())
    }
}

/// The mapping a sequence of attributes denotes: a later entry for a
/// name shadows an earlier one.
pub open spec fn map_of(s: Seq<(Seq<char>, ValueModel)>) -> Map<Seq<char>, ValueModel>
    decreases s.len(),
{
    if s.len() == 0 {
        Map::empty()
    } else {
        map_of(s.drop_last()).insert(s.last().0, s.last().1)
    }
}

/// No two entries carry the same name.
pub open spec fn names_unique(s: Seq<(Seq<char>, ValueModel)>) -> bool {
    forall|i: int, j: int| 0 <= i < j < s.len() ==> s[i].0 != s[j].0
}

/// A name is in the mapping exactly when some entry carries it.
pub proof fn lemma_map_of_contains(s: Seq<(Seq<char>, ValueModel)>, k: Seq<char>)
    ensures
        map_of(s).contains_key(k) <==> exists|i: int| 0 <= i < s.len() && s[i].0 == k,
    decreases s.len(),
{
    if s.len() > 0 {
        lemma_map_of_contains(s.drop_last(), k);
        if s.last().0 == k {
            assert(s[s.len() - 1].0 == k);
        } else if map_of(s).contains_key(k) {
            let i = choose|i: int| 0 <= i < s.drop_last().len() && s.drop_last()[i].0 == k;
            assert(s[i].0 == k);
        } else if exists|i: int| 0 <= i < s.len() && s[i].0 == k {
            let i = choose|i: int| 0 <= i < s.len() && s[i].0 == k;
            assert(s.drop_last()[i].0 == k);
        }
    }
}

/// With unique names, the mapping sends each entry's name to its value.
pub proof fn lemma_map_of_index(s: Seq<(Seq<char>, ValueModel)>, i: int)
    requires
        names_unique(s),
        0 <= i < s.len(),
    ensures
        map_of(s).contains_key(s[i].0),
        map_of(s)[s[i].0] == s[i].1,
    decreases s.len(),
{
    if i == s.len() - 1 {
    } else {
        assert(s[i].0 != s.last().0);
        assert(s.drop_last()[i] == s[i]);
        lemma_map_of_index(s.drop_last(), i);
    }
}

/// Replacing the value under an existing name updates the mapping at
/// that name alone.
pub proof fn lemma_map_of_update(
    s: Seq<(Seq<char>, ValueModel)>,
    i: int,
    k: Seq<char>,
    v: ValueModel,
)
    requires
        names_unique(s),
        0 <= i < s.len(),
        s[i].0 == k,
    ensures
        map_of(s.update(i, (k, v))) == map_of(s).insert(k, v),
    decreases s.len(),
{
    let su = s.update(i, (k, v));
    if i == s.len() - 1 {
        assert(su.drop_last() =~= s.drop_last());
        assert(map_of(su) =~= map_of(s).insert(k, v));
    } else {
        assert(su.drop_last() =~= s.drop_last().update(i, (k, v)));
        assert(s.drop_last()[i] == s[i]);
        lemma_map_of_update(s.drop_last(), i, k, v);
        assert(s.last().0 != k);
        assert(su.last() == s.last());
        assert(map_of(su) =~= map_of(s).insert(k, v));
    }
}

/// Appending a fresh entry inserts its name into the mapping.
pub proof fn lemma_map_of_push(s: Seq<(Seq<char>, ValueModel)>, k: Seq<char>, v: ValueModel)
    ensures
        map_of(s.push((k, v))) == map_of(s).insert(k, v),
{
    assert(s.push((k, v)).drop_last() =~= s);
    assert(s.push((k, v)).last() == (k, v));
}

/// An engine object: a set of named attributes.
///
/// # Examples
///
/// ```ignore
/// let mut obj = HyperObject::new();
/// obj.insert("first", "Emin");
/// obj.insert("last", "Sirer");
/// obj.insert("age", 30i64);
/// ```
#[derive(Debug, PartialEq)]
pub struct HyperObject {
    pub(crate) entries: Vec<ObjectEntry>,
}

impl DeepView for HyperObject {
    type V = Seq<(Seq<char>, ValueModel)>;

    closed spec fn deep_view(&self) -> Seq<(Seq<char>, ValueModel)> {
        self.entries.deep_view()
    }
}

/// Inside the crate, an object's deep view is its entry vector's.
pub(crate) proof fn lemma_object_deep_view(o: &HyperObject)
    ensures
        o.deep_view() == o.entries.deep_view(),
{
}

impl HyperObject {
    /// The attribute names are pairwise distinct.
    pub open spec fn wf(&self) -> bool {
        names_unique(self.deep_view())
    }

    /// The mapping from attribute names to values.
    pub open spec fn as_map(&self) -> Map<Seq<char>, ValueModel> {
        map_of(self.deep_view())
    }

    /// Creates an empty object.
    pub fn new() -> (r: HyperObject)
        ensures
            r.wf(),
            r.deep_view() == Seq::<(Seq<char>, ValueModel)>::empty(),
            r.as_map() == Map::<Seq<char>, ValueModel>::empty(),
    {
        let r = HyperObject { entries: Vec::new() };
        proof {
            assert(r.deep_view() =~= Seq::<(Seq<char>, ValueModel)>::empty());
        }
        r
    }

    /// The number of attributes.
    pub fn len(&self) -> (n: usize)
        ensures
            n == self.deep_view().len(),
    {
        self.entries.len()
    }

    /// The position of the entry named `key`, if any.
    fn index_of(&self, key: &String) -> (r: Option<usize>)
        ensures
            match r {
                Some(i) => i < self.deep_view().len() && self.deep_view()[i as int].0 == key@,
                None => forall|j: int|
                    0 <= j < self.deep_view().len() ==> self.deep_view()[j].0 != key@,
            },
    {
        let mut i: usize = 0;
        while i < self.entries.len()
            invariant
                i <= self.entries.len(),
                forall|j: int| 0 <= j < i ==> self.deep_view()[j].0 != key@,
            decreases self.entries.len() - i,
        {
            if self.entries[i].name == *key {
                return Some(i);
            }
            i = i + 1;
        }
        None
    }

    /// Sets attribute `attr` to `val`, replacing any previous value
    /// under that name.
    pub fn insert<V: ToHyperValue>(&mut self, attr: &str, val: V)
        requires
            old(self).wf(),
        ensures
            final(self).wf(),
            final(self).as_map() == old(self).as_map().insert(attr@, val.hyper_model()),
    {
        let name: String = attr.to_owned();
        let value = val.to_hyper();
        self.insert_value(name, value);
    }

    /// Sets the attribute named `name` to the given engine value,
    /// replacing any previous value under that name.
    pub fn insert_value(&mut self, name: String, value: HyperValue)
        requires
            old(self).wf(),
        ensures
            final(self).wf(),
            final(self).as_map() == old(self).as_map().insert(name@, value.deep_view()),
    {
        let ghost old_dv = self.deep_view();
        let ghost key = name@;
        let ghost model = value.deep_view();
        match self.index_of(&name) {
            Some(i) => {
                self.entries.set(i, ObjectEntry { name, value });
                proof {
                    assert(self.deep_view() =~~= old_dv.update(i as int, (key, model)));
                    lemma_map_of_update(old_dv, i as int, key, model);
                }
            },
            None => {
                self.entries.push(ObjectEntry { name, value });
                proof {
                    assert(self.deep_view() =~~= old_dv.push((key, model)));
                    lemma_map_of_push(old_dv, key, model);
                }
            },
        }
    }

    /// Borrows the value under `attr`, if present.
    pub fn get_value(&self, attr: &str) -> (r: Option<&HyperValue>)
        requires
            self.wf(),
        ensures
            match r {
                Some(v) => self.as_map().contains_key(attr@) && v.deep_view()
                    == self.as_map()[attr@],
                None => !self.as_map().contains_key(attr@),
            },
    {
        let key: String = attr.to_owned();
        match self.index_of(&key) {
            Some(i) => {
                proof {
                    lemma_map_of_index(self.deep_view(), i as int);
                }
                Some(&self.entries[i].value)
            },
            None => {
                proof {
                    lemma_map_of_contains(self.deep_view(), attr@);
                }
                None
            },
        }
    }

    /// Extracts the value under `attr` in the shape the caller asks
    /// for.
    pub fn get<T: FromHyperValue>(&self, attr: &str) -> (r: Result<T, HyperObjectKeyError>)
        requires
            self.wf(),
        ensures
            match r {
                Ok(t) => self.as_map().contains_key(attr@) && T::extract(self.as_map()[attr@])
                    == Some(t.deep_view()),
                Err(HyperObjectKeyError::KeyDoesNotExist) => !self.as_map().contains_key(attr@),
                Err(HyperObjectKeyError::ObjectIsAnotherType) => self.as_map().contains_key(attr@)
                    && T::extract(self.as_map()[attr@]) is None,
            },
    {
        match self.get_value(attr) {
            None => Err(HyperObjectKeyError::KeyDoesNotExist),
            Some(v) => {
                let c = v.clone();
                T::from_hyper(c)
            },
        }
    }
}

/// Predicates the engine supports in a search, under the names the
/// engine's own interface uses.
#[allow(non_camel_case_types)]
#[derive(Debug, Clone, Copy, PartialEq, Eq, Structural)]
pub enum HyperPredicateType {
    FAIL,
    EQUALS,
    LESS_THAN,
    LESS_EQUAL,
    GREATER_EQUAL,
    GREATER_THAN,
    REGEX,
    LENGTH_EQUALS,
    LENGTH_LESS_EQUAL,
    LENGTH_GREATER_EQUAL,
    CONTAINS,
}

impl HyperPredicateType {
    /// The code this predicate carries on the wire.
    pub open spec fn spec_code(&self) -> u32 {
        match self {
            HyperPredicateType::FAIL => 9728,
            HyperPredicateType::EQUALS => 9729,
            HyperPredicateType::LESS_THAN => 9738,
            HyperPredicateType::LESS_EQUAL => 9730,
            HyperPredicateType::GREATER_EQUAL => 9731,
            HyperPredicateType::GREATER_THAN => 9739,
            HyperPredicateType::REGEX => 9733,
            HyperPredicateType::LENGTH_EQUALS => 9734,
            HyperPredicateType::LENGTH_LESS_EQUAL => 9735,
            HyperPredicateType::LENGTH_GREATER_EQUAL => 9736,
            HyperPredicateType::CONTAINS => 9737,
        }
    }

    /// Returns the wire code of this predicate.
    pub fn code(&self) -> (c: u32)
        ensures
            c == self.spec_code(),
    {
        match self {
            HyperPredicateType::FAIL => 9728,
            HyperPredicateType::EQUALS => 9729,
            HyperPredicateType::LESS_THAN => 9738,
            HyperPredicateType::LESS_EQUAL => 9730,
            HyperPredicateType::GREATER_EQUAL => 9731,
            HyperPredicateType::GREATER_THAN => 9739,
            HyperPredicateType::REGEX => 9733,
            HyperPredicateType::LENGTH_EQUALS => 9734,
            HyperPredicateType::LENGTH_LESS_EQUAL => 9735,
            HyperPredicateType::LENGTH_GREATER_EQUAL => 9736,
            HyperPredicateType::CONTAINS => 9737,
        }
    }
}

/// A predicate used for search: constrain attribute `attr` by
/// `predicate` against `value`.
#[derive(Debug)]
pub struct HyperPredicate {
    pub attr: String,
    pub value: HyperValue,
    pub predicate: HyperPredicateType,
}

impl HyperPredicate {
    /// Builds a predicate on attribute `attr`.
    pub fn new<T: ToHyperValue>(attr: &str, predicate: HyperPredicateType, value: T) -> (p:
        HyperPredicate)
        ensures
            p.attr@ == attr@,
            p.value.deep_view() == value.hyper_model(),
            p.predicate == predicate,
    {
        HyperPredicate { attr: attr.to_owned(), value: value.to_hyper(), predicate }
    }
}

/// A key-value pair associated with a specific map attribute.
#[derive(Debug)]
pub struct HyperMapAttribute {
    pub attr: String,
    pub key: HyperValue,
    pub value: HyperValue,
}

} // verus!
