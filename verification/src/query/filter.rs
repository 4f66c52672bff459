use crate::collection::IsarCollection;
use crate::error::IsarError;
use crate::key::{lemma_key_of, spec_int_key, spec_key_of};
use crate::link::Link;
use crate::object::data_type::DataType;
use crate::object::float::{
    is_nan32, is_nan64, le32, le64, spec_is_nan32, spec_is_nan64, spec_le32, spec_le64,
};
use crate::object::property::Property;
use crate::query::fast_wild_compare::{chars_of, wild_compare_chars, wild_match};
use crate::store::{pairs_of, spec_scan, Pair};
use crate::text::{string_with_case, with_case};
use crate::txn::TxnData;
use vstd::prelude::*;
use vstd::string::StringSliceAdditionalSpecFns;
use vstd::utf8::{decode_utf8, encode_utf8_decode_utf8};

verus! {

/// A predicate on stored objects.
pub enum Filter {
    IsNull(IsNullCond),
    ByteBetween(ByteBetweenCond),
    IntBetween(IntBetweenCond),
    LongBetween(LongBetweenCond),
    FloatBetween(FloatBetweenCond),
    DoubleBetween(DoubleBetweenCond),
    ByteListContains(ByteListContainsCond),
    IntListContains(IntListContainsCond),
    LongListContains(LongListContainsCond),
    StringEqual(StringEqualCond),
    StringStartsWith(StringStartsWithCond),
    StringEndsWith(StringEndsWithCond),
    StringLike(StringLikeCond),
    StringListContains(StringListContainsCond),
    Link(LinkCond),
    And(AndCond),
    Or(OrCond),
    Not(NotCond),
    Static(StaticCond),
}

/// One kind of predicate: what it needs of an object to be evaluated on
/// it, and what it says of the object.
pub trait Condition {
    /// Whether the predicate can be evaluated on the object.
    spec fn ready(&self, data: &TxnData, object: Seq<u8>) -> bool;

    /// Whether the object with this id satisfies the predicate.
    spec fn matches(&self, data: &TxnData, id: i64, object: Seq<u8>) -> bool;

    fn evaluate(&self, data: &TxnData, id: i64, object: &[u8]) -> (r: bool)
        requires
            self.ready(data, object@),
        ensures
            r == self.matches(data, id, object@),
    ;
}

/// The string stored in `bytes` as a filter compares it.
pub open spec fn text_of(bytes: Seq<u8>, case_sensitive: bool) -> Seq<char> {
    with_case(decode_utf8(bytes), case_sensitive)
}

/// The optional string stored in `bytes` as a filter compares it.
pub open spec fn optional_text(bytes: Option<Seq<u8>>, case_sensitive: bool) -> Option<Seq<char>> {
    match bytes {
        Some(b) => Some(text_of(b, case_sensitive)),
        None => None,
    }
}

/// The characters of an optional string.
pub open spec fn optional_chars(value: Option<String>) -> Option<Seq<char>> {
    match value {
        Some(v) => Some(v@),
        None => None,
    }
}

pub open spec fn is_char_prefix(p: Seq<char>, s: Seq<char>) -> bool {
    p.len() <= s.len() && s.subrange(0, p.len() as int) == p
}

pub open spec fn is_char_suffix(p: Seq<char>, s: Seq<char>) -> bool {
    p.len() <= s.len() && s.subrange(s.len() - p.len(), s.len() as int) == p
}

/// Whether two strings hold the same characters.
pub fn same_text(a: &str, b: &str) -> (r: bool)
    ensures
        r == (a@ == b@),
{
    let x = chars_of(a);
    let y = chars_of(b);
    if x.len() != y.len() {
        return false;
    }
    let mut i: usize = 0;
    while i < x.len()
        invariant
            i <= x@.len(),
            x@ == a@,
            y@ == b@,
            x@.len() == y@.len(),
            forall|j: int| 0 <= j < i ==> x@[j] == y@[j],
        decreases x@.len() - i,
    {
        if x[i] != y[i] {
            return false;
        }
        i += 1;
    }
    assert(x@ =~= y@);
    true
}

/// Whether `s` starts with `p`.
pub fn chars_start_with(s: &Vec<char>, p: &Vec<char>) -> (r: bool)
    ensures
        r == is_char_prefix(p@, s@),
{
    if p.len() > s.len() {
        return false;
    }
    let mut i: usize = 0;
    while i < p.len()
        invariant
            i <= p@.len(),
            p@.len() <= s@.len(),
            forall|j: int| 0 <= j < i ==> s@[j] == p@[j],
        decreases p@.len() - i,
    {
        if s[i] != p[i] {
            assert(s@.subrange(0, p@.len() as int)[i as int] == s@[i as int]);
            return false;
        }
        i += 1;
    }
    assert(s@.subrange(0, p@.len() as int) =~= p@);
    true
}

/// Whether `s` ends with `p`.
pub fn chars_end_with(s: &Vec<char>, p: &Vec<char>) -> (r: bool)
    ensures
        r == is_char_suffix(p@, s@),
{
    if p.len() > s.len() {
        return false;
    }
    let total: usize = s.len();
    let shift: usize = total - p.len();
    let mut i: usize = 0;
    while i < p.len()
        invariant
            i <= p@.len(),
            p@.len() <= s@.len(),
            total == s@.len(),
            shift == s@.len() - p@.len(),
            forall|j: int| 0 <= j < i ==> s@[shift + j] == p@[j],
        decreases p@.len() - i,
    {
        if s[shift + i] != p[i] {
            assert(s@.subrange(shift as int, s@.len() as int)[i as int] == s@[shift + i]);
            return false;
        }
        i += 1;
    }
    assert(s@.subrange(shift as int, s@.len() as int) =~= p@);
    true
}

/// The pattern as a filter keeps it: in lowercase unless case matters.
pub fn fold_pattern(value: Option<&str>, case_sensitive: bool) -> (r: Option<String>)
    ensures
        r is Some == value is Some,
        r matches Some(v) ==> v@ == with_case(value->Some_0@, case_sensitive),
{
    match value {
        Some(s) => Some(string_with_case(s, case_sensitive)),
        None => None,
    }
}

/// The string of a property as a filter compares it.
pub fn read_text(property: &Property, object: &[u8], case_sensitive: bool) -> (r: Option<String>)
    requires
        property.data_type == DataType::String,
        property.readable(object@),
    ensures
        optional_chars(r) == optional_text(property.spec_bytes(object@), case_sensitive),
{
    match property.get_string(object) {
        Some(s) => {
            proof {
                encode_utf8_decode_utf8(s@);
            }
            Some(string_with_case(s, case_sensitive))
        },
        None => None,
    }
}

/// Matches a value that is the null value of its type.
pub struct IsNullCond {
    pub property: Property,
}

impl Condition for IsNullCond {
    open spec fn ready(&self, data: &TxnData, object: Seq<u8>) -> bool {
        self.property.fits(object)
    }

    open spec fn matches(&self, data: &TxnData, id: i64, object: Seq<u8>) -> bool {
        self.property.spec_is_null(object)
    }

    fn evaluate(&self, data: &TxnData, id: i64, object: &[u8]) -> (r: bool) {
        self.property.is_null(object)
    }
}

impl IsNullCond {
    pub fn filter(property: Property) -> (f: Filter)
        ensures
            f == Filter::IsNull(IsNullCond { property }),
    {
        Filter::IsNull(Self { property })
    }
}

/// Matches a `Byte` between two bounds, both included.
pub struct ByteBetweenCond {
    pub upper: u8,
    pub lower: u8,
    pub property: Property,
}

impl Condition for ByteBetweenCond {
    open spec fn ready(&self, data: &TxnData, object: Seq<u8>) -> bool {
        self.property.data_type == DataType::Byte && self.property.fits(object)
    }

    open spec fn matches(&self, data: &TxnData, id: i64, object: Seq<u8>) -> bool {
        self.lower <= self.property.spec_byte(object) <= self.upper
    }

    fn evaluate(&self, data: &TxnData, id: i64, object: &[u8]) -> (r: bool) {
        let val = self.property.get_byte(object);
        self.lower <= val && self.upper >= val
    }
}

impl ByteBetweenCond {
    pub fn filter(property: Property, lower: u8, upper: u8) -> (r: Result<Filter, IsarError>)
        ensures
            r is Ok <==> property.data_type == DataType::Byte,
            r matches Ok(f) ==> f == Filter::ByteBetween(ByteBetweenCond { upper, lower, property }),
            r matches Err(e) ==> e is IllegalArgument,
    {
        if property.data_type == DataType::Byte {
            Ok(Filter::ByteBetween(Self { property, lower, upper }))
        } else {
            Err(wrong_type())
        }
    }
}

/// Matches an `Int` between two bounds, both included.
pub struct IntBetweenCond {
    pub upper: i32,
    pub lower: i32,
    pub property: Property,
}

impl Condition for IntBetweenCond {
    open spec fn ready(&self, data: &TxnData, object: Seq<u8>) -> bool {
        self.property.data_type == DataType::Int && self.property.fits(object)
    }

    open spec fn matches(&self, data: &TxnData, id: i64, object: Seq<u8>) -> bool {
        self.lower <= self.property.spec_int(object) <= self.upper
    }

    fn evaluate(&self, data: &TxnData, id: i64, object: &[u8]) -> (r: bool) {
        let val = self.property.get_int(object);
        self.lower <= val && self.upper >= val
    }
}

impl IntBetweenCond {
    pub fn filter(property: Property, lower: i32, upper: i32) -> (r: Result<Filter, IsarError>)
        ensures
            r is Ok <==> property.data_type == DataType::Int,
            r matches Ok(f) ==> f == Filter::IntBetween(IntBetweenCond { upper, lower, property }),
            r matches Err(e) ==> e is IllegalArgument,
    {
        if property.data_type == DataType::Int {
            Ok(Filter::IntBetween(Self { property, lower, upper }))
        } else {
            Err(wrong_type())
        }
    }
}

/// Matches a `Long` between two bounds, both included.
pub struct LongBetweenCond {
    pub upper: i64,
    pub lower: i64,
    pub property: Property,
}

impl Condition for LongBetweenCond {
    open spec fn ready(&self, data: &TxnData, object: Seq<u8>) -> bool {
        self.property.data_type == DataType::Long && self.property.fits(object)
    }

    open spec fn matches(&self, data: &TxnData, id: i64, object: Seq<u8>) -> bool {
        self.lower <= self.property.spec_long(object) <= self.upper
    }

    fn evaluate(&self, data: &TxnData, id: i64, object: &[u8]) -> (r: bool) {
        let val = self.property.get_long(object);
        self.lower <= val && self.upper >= val
    }
}

impl LongBetweenCond {
    pub fn filter(property: Property, lower: i64, upper: i64) -> (r: Result<Filter, IsarError>)
        ensures
            r is Ok <==> property.data_type == DataType::Long,
            r matches Ok(f) ==> f == Filter::LongBetween(LongBetweenCond { upper, lower, property }),
            r matches Err(e) ==> e is IllegalArgument,
    {
        if property.data_type == DataType::Long {
            Ok(Filter::LongBetween(Self { property, lower, upper }))
        } else {
            Err(wrong_type())
        }
    }
}

/// Whether a single-precision value lies between two bounds, all three
/// given by their bit patterns. A NaN upper bound admits only a NaN, and
/// only with a NaN lower bound; a NaN lower bound admits a NaN and every
/// number up to the upper bound; number bounds admit the numbers between
/// them.
pub open spec fn float_between(lower: u32, upper: u32, val: u32) -> bool {
    if spec_is_nan32(upper) {
        spec_is_nan32(lower) && spec_is_nan32(val)
    } else if spec_is_nan32(lower) {
        spec_is_nan32(val) || spec_le32(val, upper)
    } else {
        !spec_is_nan32(val) && spec_le32(lower, val) && spec_le32(val, upper)
    }
}

/// Whether a double-precision value lies between two bounds, by the same
/// rules as `float_between`.
pub open spec fn double_between(lower: u64, upper: u64, val: u64) -> bool {
    if spec_is_nan64(upper) {
        spec_is_nan64(lower) && spec_is_nan64(val)
    } else if spec_is_nan64(lower) {
        spec_is_nan64(val) || spec_le64(val, upper)
    } else {
        !spec_is_nan64(val) && spec_le64(lower, val) && spec_le64(val, upper)
    }
}

/// Matches a `Float` between two bounds; all are IEEE 754 bit patterns.
pub struct FloatBetweenCond {
    pub upper: u32,
    pub lower: u32,
    pub property: Property,
}

impl Condition for FloatBetweenCond {
    open spec fn ready(&self, data: &TxnData, object: Seq<u8>) -> bool {
        self.property.data_type == DataType::Float && self.property.fits(object)
    }

    open spec fn matches(&self, data: &TxnData, id: i64, object: Seq<u8>) -> bool {
        float_between(self.lower, self.upper, self.property.spec_float_bits(object))
    }

    fn evaluate(&self, data: &TxnData, id: i64, object: &[u8]) -> (r: bool) {
        let val = self.property.get_float_bits(object);
        if is_nan32(self.upper) {
            is_nan32(self.lower) && is_nan32(val)
        } else if is_nan32(self.lower) {
            is_nan32(val) || le32(val, self.upper)
        } else {
            !is_nan32(val) && le32(self.lower, val) && le32(val, self.upper)
        }
    }
}

impl FloatBetweenCond {
    pub fn filter(property: Property, lower: u32, upper: u32) -> (r: Result<Filter, IsarError>)
        ensures
            r is Ok <==> property.data_type == DataType::Float,
            r matches Ok(f) ==> f == Filter::FloatBetween(
                FloatBetweenCond { upper, lower, property },
            ),
            r matches Err(e) ==> e is IllegalArgument,
    {
        if property.data_type == DataType::Float {
            Ok(Filter::FloatBetween(Self { property, lower, upper }))
        } else {
            Err(wrong_type())
        }
    }
}

/// Matches a `Double` between two bounds; all are IEEE 754 bit patterns.
pub struct DoubleBetweenCond {
    pub upper: u64,
    pub lower: u64,
    pub property: Property,
}

impl Condition for DoubleBetweenCond {
    open spec fn ready(&self, data: &TxnData, object: Seq<u8>) -> bool {
        self.property.data_type == DataType::Double && self.property.fits(object)
    }

    open spec fn matches(&self, data: &TxnData, id: i64, object: Seq<u8>) -> bool {
        double_between(self.lower, self.upper, self.property.spec_double_bits(object))
    }

    fn evaluate(&self, data: &TxnData, id: i64, object: &[u8]) -> (r: bool) {
        let val = self.property.get_double_bits(object);
        if is_nan64(self.upper) {
            is_nan64(self.lower) && is_nan64(val)
        } else if is_nan64(self.lower) {
            is_nan64(val) || le64(val, self.upper)
        } else {
            !is_nan64(val) && le64(self.lower, val) && le64(val, self.upper)
        }
    }
}

impl DoubleBetweenCond {
    pub fn filter(property: Property, lower: u64, upper: u64) -> (r: Result<Filter, IsarError>)
        ensures
            r is Ok <==> property.data_type == DataType::Double,
            r matches Ok(f) ==> f == Filter::DoubleBetween(
                DoubleBetweenCond { upper, lower, property },
            ),
            r matches Err(e) ==> e is IllegalArgument,
    {
        if property.data_type == DataType::Double {
            Ok(Filter::DoubleBetween(Self { property, lower, upper }))
        } else {
            Err(wrong_type())
        }
    }
}

/// The error of a filter that its property's type does not support.
pub fn wrong_type() -> (e: IsarError)
    ensures
        e is IllegalArgument,
        e->IllegalArgument_message@ == "Property does not support this filter."@,
{
    IsarError::IllegalArgument { message: "Property does not support this filter.".to_string() }
}

/// Matches a byte list that holds a value.
pub struct ByteListContainsCond {
    pub value: u8,
    pub property: Property,
}

impl Condition for ByteListContainsCond {
    open spec fn ready(&self, data: &TxnData, object: Seq<u8>) -> bool {
        self.property.data_type == DataType::ByteList && self.property.readable(object)
    }

    open spec fn matches(&self, data: &TxnData, id: i64, object: Seq<u8>) -> bool {
        self.property.spec_bytes(object) matches Some(list) && list.contains(self.value)
    }

    fn evaluate(&self, data: &TxnData, id: i64, object: &[u8]) -> (r: bool) {
        match self.property.get_byte_list(object) {
            Some(list) => {
                let mut i: usize = 0;
                while i < list.len()
                    invariant
                        i <= list@.len(),
                        self.property.spec_bytes(object@) == Some(list@),
                        forall|k: int| 0 <= k < i ==> list@[k] != self.value,
                    decreases list@.len() - i,
                {
                    if list[i] == self.value {
                        assert(list@[i as int] == self.value);
                        return true;
                    }
                    i += 1;
                }
                false
            },
            None => false,
        }
    }
}

impl ByteListContainsCond {
    pub fn filter(property: Property, value: u8) -> (r: Result<Filter, IsarError>)
        ensures
            r is Ok <==> property.data_type == DataType::ByteList,
            r matches Ok(f) ==> f == Filter::ByteListContains(
                ByteListContainsCond { value, property },
            ),
            r matches Err(e) ==> e is IllegalArgument,
    {
        if property.data_type == DataType::ByteList {
            Ok(Filter::ByteListContains(Self { property, value }))
        } else {
            Err(wrong_type())
        }
    }
}

/// Matches an int list that holds a value.
pub struct IntListContainsCond {
    pub value: i32,
    pub property: Property,
}

impl Condition for IntListContainsCond {
    open spec fn ready(&self, data: &TxnData, object: Seq<u8>) -> bool {
        self.property.data_type == DataType::IntList && self.property.readable(object)
    }

    open spec fn matches(&self, data: &TxnData, id: i64, object: Seq<u8>) -> bool {
        self.property.spec_int_list(object) matches Some(list) && list.contains(self.value)
    }

    fn evaluate(&self, data: &TxnData, id: i64, object: &[u8]) -> (r: bool) {
        match self.property.get_int_list(object) {
            Some(list) => {
                let mut i: usize = 0;
                while i < list.len()
                    invariant
                        i <= list@.len(),
                        self.property.spec_int_list(object@) == Some(list@),
                        forall|k: int| 0 <= k < i ==> list@[k] != self.value,
                    decreases list@.len() - i,
                {
                    if list[i] == self.value {
                        assert(list@[i as int] == self.value);
                        return true;
                    }
                    i += 1;
                }
                false
            },
            None => false,
        }
    }
}

impl IntListContainsCond {
    pub fn filter(property: Property, value: i32) -> (r: Result<Filter, IsarError>)
        ensures
            r is Ok <==> property.data_type == DataType::IntList,
            r matches Ok(f) ==> f == Filter::IntListContains(IntListContainsCond { value, property }),
            r matches Err(e) ==> e is IllegalArgument,
    {
        if property.data_type == DataType::IntList {
            Ok(Filter::IntListContains(Self { property, value }))
        } else {
            Err(wrong_type())
        }
    }
}

/// Matches a long list that holds a value.
pub struct LongListContainsCond {
    pub value: i64,
    pub property: Property,
}

impl Condition for LongListContainsCond {
    open spec fn ready(&self, data: &TxnData, object: Seq<u8>) -> bool {
        self.property.data_type == DataType::LongList && self.property.readable(object)
    }

    open spec fn matches(&self, data: &TxnData, id: i64, object: Seq<u8>) -> bool {
        self.property.spec_long_list(object) matches Some(list) && list.contains(self.value)
    }

    fn evaluate(&self, data: &TxnData, id: i64, object: &[u8]) -> (r: bool) {
        match self.property.get_long_list(object) {
            Some(list) => {
                let mut i: usize = 0;
                while i < list.len()
                    invariant
                        i <= list@.len(),
                        self.property.spec_long_list(object@) == Some(list@),
                        forall|k: int| 0 <= k < i ==> list@[k] != self.value,
                    decreases list@.len() - i,
                {
                    if list[i] == self.value {
                        assert(list@[i as int] == self.value);
                        return true;
                    }
                    i += 1;
                }
                false
            },
            None => false,
        }
    }
}

impl LongListContainsCond {
    pub fn filter(property: Property, value: i64) -> (r: Result<Filter, IsarError>)
        ensures
            r is Ok <==> property.data_type == DataType::LongList,
            r matches Ok(f) ==> f == Filter::LongListContains(
                LongListContainsCond { value, property },
            ),
            r matches Err(e) ==> e is IllegalArgument,
    {
        if property.data_type == DataType::LongList {
            Ok(Filter::LongListContains(Self { property, value }))
        } else {
            Err(wrong_type())
        }
    }
}

/// Matches a string equal to a pattern. The null pattern matches the
/// null string and no other.
pub struct StringEqualCond {
    pub property: Property,
    pub value: Option<String>,
    pub case_sensitive: bool,
}

impl Condition for StringEqualCond {
    open spec fn ready(&self, data: &TxnData, object: Seq<u8>) -> bool {
        self.property.data_type == DataType::String && self.property.readable(object)
    }

    open spec fn matches(&self, data: &TxnData, id: i64, object: Seq<u8>) -> bool {
        optional_chars(self.value) == optional_text(
            self.property.spec_bytes(object),
            self.case_sensitive,
        )
    }

    fn evaluate(&self, data: &TxnData, id: i64, object: &[u8]) -> (r: bool) {
        let other = read_text(&self.property, object, self.case_sensitive);
        match (&self.value, &other) {
            (Some(pattern), Some(text)) => same_text(pattern.as_str(), text.as_str()),
            (None, None) => true,
            _ => false,
        }
    }
}

impl StringEqualCond {
    pub fn filter(property: Property, value: Option<&str>, case_sensitive: bool) -> (r: Result<
        Filter,
        IsarError,
    >)
        ensures
            r is Ok <==> property.data_type == DataType::String,
            r matches Ok(f) ==> (f matches Filter::StringEqual(c) && c.property == property
                && c.case_sensitive == case_sensitive && optional_chars(c.value) == (match value {
                Some(v) => Some(with_case(v@, case_sensitive)),
                None => None,
            })),
            r matches Err(e) ==> e is IllegalArgument,
    {
        let value = fold_pattern(value, case_sensitive);
        if property.data_type == DataType::String {
            Ok(Filter::StringEqual(StringEqualCond { property, value, case_sensitive }))
        } else {
            Err(wrong_type())
        }
    }
}

/// Matches a string that starts with a pattern.
pub struct StringStartsWithCond {
    pub property: Property,
    pub value: Option<String>,
    pub case_sensitive: bool,
}

impl Condition for StringStartsWithCond {
    open spec fn ready(&self, data: &TxnData, object: Seq<u8>) -> bool {
        self.property.data_type == DataType::String && self.property.readable(object)
    }

    open spec fn matches(&self, data: &TxnData, id: i64, object: Seq<u8>) -> bool {
        match (
            optional_chars(self.value),
            optional_text(self.property.spec_bytes(object), self.case_sensitive),
        ) {
            (Some(pattern), Some(text)) => is_char_prefix(pattern, text),
            (None, None) => true,
            _ => false,
        }
    }

    fn evaluate(&self, data: &TxnData, id: i64, object: &[u8]) -> (r: bool) {
        let other = read_text(&self.property, object, self.case_sensitive);
        match (&self.value, &other) {
            (Some(pattern), Some(text)) => chars_start_with(
                &chars_of(text.as_str()),
                &chars_of(pattern.as_str()),
            ),
            (None, None) => true,
            _ => false,
        }
    }
}

impl StringStartsWithCond {
    pub fn filter(property: Property, value: Option<&str>, case_sensitive: bool) -> (r: Result<
        Filter,
        IsarError,
    >)
        ensures
            r is Ok <==> property.data_type == DataType::String,
            r matches Ok(f) ==> (f matches Filter::StringStartsWith(c) && c.property == property
                && c.case_sensitive == case_sensitive && optional_chars(c.value) == (match value {
                Some(v) => Some(with_case(v@, case_sensitive)),
                None => None,
            })),
            r matches Err(e) ==> e is IllegalArgument,
    {
        let value = fold_pattern(value, case_sensitive);
        if property.data_type == DataType::String {
            Ok(Filter::StringStartsWith(StringStartsWithCond { property, value, case_sensitive }))
        } else {
            Err(wrong_type())
        }
    }
}

/// Matches a string that ends with a pattern.
pub struct StringEndsWithCond {
    pub property: Property,
    pub value: Option<String>,
    pub case_sensitive: bool,
}

impl Condition for StringEndsWithCond {
    open spec fn ready(&self, data: &TxnData, object: Seq<u8>) -> bool {
        self.property.data_type == DataType::String && self.property.readable(object)
    }

    open spec fn matches(&self, data: &TxnData, id: i64, object: Seq<u8>) -> bool {
        match (
            optional_chars(self.value),
            optional_text(self.property.spec_bytes(object), self.case_sensitive),
        ) {
            (Some(pattern), Some(text)) => is_char_suffix(pattern, text),
            (None, None) => true,
            _ => false,
        }
    }

    fn evaluate(&self, data: &TxnData, id: i64, object: &[u8]) -> (r: bool) {
        let other = read_text(&self.property, object, self.case_sensitive);
        match (&self.value, &other) {
            (Some(pattern), Some(text)) => chars_end_with(
                &chars_of(text.as_str()),
                &chars_of(pattern.as_str()),
            ),
            (None, None) => true,
            _ => false,
        }
    }
}

impl StringEndsWithCond {
    pub fn filter(property: Property, value: Option<&str>, case_sensitive: bool) -> (r: Result<
        Filter,
        IsarError,
    >)
        ensures
            r is Ok <==> property.data_type == DataType::String,
            r matches Ok(f) ==> (f matches Filter::StringEndsWith(c) && c.property == property
                && c.case_sensitive == case_sensitive && optional_chars(c.value) == (match value {
                Some(v) => Some(with_case(v@, case_sensitive)),
                None => None,
            })),
            r matches Err(e) ==> e is IllegalArgument,
    {
        let value = fold_pattern(value, case_sensitive);
        if property.data_type == DataType::String {
            Ok(Filter::StringEndsWith(StringEndsWithCond { property, value, case_sensitive }))
        } else {
            Err(wrong_type())
        }
    }
}

/// Matches a string against a pattern with the wildcards `*` and `?`.
pub struct StringLikeCond {
    pub property: Property,
    pub value: Option<String>,
    pub case_sensitive: bool,
}

impl Condition for StringLikeCond {
    open spec fn ready(&self, data: &TxnData, object: Seq<u8>) -> bool {
        self.property.data_type == DataType::String && self.property.readable(object)
    }

    open spec fn matches(&self, data: &TxnData, id: i64, object: Seq<u8>) -> bool {
        match (
            optional_chars(self.value),
            optional_text(self.property.spec_bytes(object), self.case_sensitive),
        ) {
            (Some(pattern), Some(text)) => wild_match(text, pattern),
            (None, None) => true,
            _ => false,
        }
    }

    fn evaluate(&self, data: &TxnData, id: i64, object: &[u8]) -> (r: bool) {
        let other = read_text(&self.property, object, self.case_sensitive);
        match (&self.value, &other) {
            (Some(pattern), Some(text)) => wild_compare_chars(
                &chars_of(text.as_str()),
                &chars_of(pattern.as_str()),
            ),
            (None, None) => true,
            _ => false,
        }
    }
}

impl StringLikeCond {
    pub fn filter(property: Property, value: Option<&str>, case_sensitive: bool) -> (r: Result<
        Filter,
        IsarError,
    >)
        ensures
            r is Ok <==> property.data_type == DataType::String,
            r matches Ok(f) ==> (f matches Filter::StringLike(c) && c.property == property
                && c.case_sensitive == case_sensitive && optional_chars(c.value) == (match value {
                Some(v) => Some(with_case(v@, case_sensitive)),
                None => None,
            })),
            r matches Err(e) ==> e is IllegalArgument,
    {
        let value = fold_pattern(value, case_sensitive);
        if property.data_type == DataType::String {
            Ok(Filter::StringLike(StringLikeCond { property, value, case_sensitive }))
        } else {
            Err(wrong_type())
        }
    }
}

/// Whether one of the strings, as a filter compares them, is `value`.
pub open spec fn holds_text(
    list: Seq<Option<Seq<u8>>>,
    value: Option<Seq<char>>,
    case_sensitive: bool,
) -> bool {
    exists|i: int| 0 <= i < list.len() && optional_text(#[trigger] list[i], case_sensitive) == value
}

/// Matches a string list that holds a string; the null pattern matches a
/// list that holds a null element.
pub struct StringListContainsCond {
    pub property: Property,
    pub value: Option<String>,
    pub case_sensitive: bool,
}

impl Condition for StringListContainsCond {
    open spec fn ready(&self, data: &TxnData, object: Seq<u8>) -> bool {
        self.property.data_type == DataType::StringList && self.property.readable(object)
    }

    open spec fn matches(&self, data: &TxnData, id: i64, object: Seq<u8>) -> bool {
        match self.property.spec_string_list(object) {
            Some(list) => holds_text(list, optional_chars(self.value), self.case_sensitive),
            None => false,
        }
    }

    fn evaluate(&self, data: &TxnData, id: i64, object: &[u8]) -> (r: bool) {
        let list = match self.property.get_string_list(object) {
            Some(list) => list,
            None => {
                return false;
            },
        };
        let ghost model = self.property.spec_string_list(object@)->Some_0;
        let mut i: usize = 0;
        while i < list.len()
            invariant
                i <= list@.len(),
                list@.len() == model.len(),
                self.property.spec_string_list(object@) == Some(model),
                forall|k: int| 0 <= k < list@.len() ==> (#[trigger] list@[k] is Some) == (model[k] is Some),
                forall|k: int|
                    0 <= k < list@.len() && list@[k] is Some ==> (
                    #[trigger] list@[k])->Some_0.spec_bytes() == model[k]->Some_0,
                forall|k: int|
                    0 <= k < i ==> optional_text(#[trigger] model[k], self.case_sensitive)
                        != optional_chars(self.value),
            decreases list@.len() - i,
        {
            let element: Option<&str> = list[i];
            assert((element is Some) == (model[i as int] is Some));
            let hit = match (&self.value, element) {
                (Some(pattern), Some(s)) => {
                    proof {
                        encode_utf8_decode_utf8(s@);
                    }
                    let text = string_with_case(s, self.case_sensitive);
                    same_text(pattern.as_str(), text.as_str())
                },
                (None, None) => true,
                _ => false,
            };
            if hit {
                assert(optional_text(model[i as int], self.case_sensitive) == optional_chars(
                    self.value,
                ));
                assert(holds_text(model, optional_chars(self.value), self.case_sensitive));
                return true;
            }
            i += 1;
        }
        false
    }
}

impl StringListContainsCond {
    pub fn filter(property: Property, value: Option<&str>, case_sensitive: bool) -> (r: Result<
        Filter,
        IsarError,
    >)
        ensures
            r is Ok <==> property.data_type == DataType::StringList,
            r matches Ok(f) ==> (f matches Filter::StringListContains(c) && c.property == property
                && c.case_sensitive == case_sensitive && optional_chars(c.value) == (match value {
                Some(v) => Some(with_case(v@, case_sensitive)),
                None => None,
            })),
            r matches Err(e) ==> e is IllegalArgument,
    {
        let value = fold_pattern(value, case_sensitive);
        if property.data_type == DataType::StringList {
            Ok(
                Filter::StringListContains(
                    StringListContainsCond { property, value, case_sensitive },
                ),
            )
        } else {
            Err(wrong_type())
        }
    }
}

/// Matches every object, or none.
pub struct StaticCond {
    pub value: bool,
}

impl Condition for StaticCond {
    open spec fn ready(&self, data: &TxnData, object: Seq<u8>) -> bool {
        true
    }

    open spec fn matches(&self, data: &TxnData, id: i64, object: Seq<u8>) -> bool {
        self.value
    }

    fn evaluate(&self, data: &TxnData, id: i64, object: &[u8]) -> (r: bool) {
        self.value
    }
}

impl StaticCond {
    pub fn filter(value: bool) -> (f: Filter)
        ensures
            f == Filter::Static(StaticCond { value }),
    {
        Filter::Static(StaticCond { value })
    }
}

/// Matches an object that every one of the filters matches.
pub struct AndCond {
    pub filters: Vec<Filter>,
}

/// Matches an object that one of the filters matches.
pub struct OrCond {
    pub filters: Vec<Filter>,
}

/// Matches an object that the filter does not match.
pub struct NotCond {
    pub filter: Box<Filter>,
}

/// Matches an object from which an edge of the link leads to an object
/// that the filter matches.
pub struct LinkCond {
    pub link: Link,
    pub filter: Box<Filter>,
}

impl AndCond {
    pub fn filter(filters: Vec<Filter>) -> (f: Filter)
        ensures
            f == Filter::And(AndCond { filters }),
    {
        Filter::And(AndCond { filters })
    }
}

impl OrCond {
    pub fn filter(filters: Vec<Filter>) -> (f: Filter)
        ensures
            f == Filter::Or(OrCond { filters }),
    {
        Filter::Or(OrCond { filters })
    }
}

impl NotCond {
    pub fn filter(filter: Filter) -> (f: Filter)
        ensures
            f == Filter::Not(NotCond { filter: Box::new(filter) }),
    {
        Filter::Not(NotCond { filter: Box::new(filter) })
    }
}

impl LinkCond {
    /// The filter over the targets of `link`; with `is_backlink` over the
    /// sources of the edges that end at the object.
    pub fn filter(link: Link, is_backlink: bool, filter: Filter) -> (f: Filter)
        ensures
            f == Filter::Link(
                LinkCond {
                    link: if is_backlink {
                        link.spec_backlink()
                    } else {
                        link
                    },
                    filter: Box::new(filter),
                },
            ),
    {
        let oriented = if is_backlink {
            link.to_backlink()
        } else {
            link
        };
        Filter::Link(LinkCond { link: oriented, filter: Box::new(filter) })
    }
}

/// The pairs of the links database that store the edges of `link` from `id`.
pub open spec fn edges_from(data: &TxnData, link: Link, id: i64) -> Seq<Pair> {
    let key = spec_int_key(link.id, id);
    spec_scan(data.links@, key, key, false, true)
}

/// Whether every edge of `link` from `id` names a stored object.
pub open spec fn edges_sound(data: &TxnData, link: Link, id: i64) -> bool {
    let hits = edges_from(data, link, id);
    forall|i: int|
        0 <= i < hits.len() ==> (#[trigger] hits[i]).1.len() == 10
            && data.cols@[link.target_col_id as int].data.has_key(hits[i].1)
}

/// The bytes stored for the object under `key` in collection `col`.
pub open spec fn stored_object(data: &TxnData, col: u16, key: Seq<u8>) -> Seq<u8> {
    choose|o: Seq<u8>| data.cols@[col as int].data@.contains((key, o))
}

/// Whether the filter can be evaluated on the object: every property it
/// reads can be read there, and for a link filter so can its inner filter
/// on every object of the target collection.
pub open spec fn filter_ready(f: &Filter, data: &TxnData, object: Seq<u8>) -> bool
    decreases f,
{
    match f {
        Filter::IsNull(c) => c.ready(data, object),
        Filter::ByteBetween(c) => c.ready(data, object),
        Filter::IntBetween(c) => c.ready(data, object),
        Filter::LongBetween(c) => c.ready(data, object),
        Filter::FloatBetween(c) => c.ready(data, object),
        Filter::DoubleBetween(c) => c.ready(data, object),
        Filter::ByteListContains(c) => c.ready(data, object),
        Filter::IntListContains(c) => c.ready(data, object),
        Filter::LongListContains(c) => c.ready(data, object),
        Filter::StringEqual(c) => c.ready(data, object),
        Filter::StringStartsWith(c) => c.ready(data, object),
        Filter::StringEndsWith(c) => c.ready(data, object),
        Filter::StringLike(c) => c.ready(data, object),
        Filter::StringListContains(c) => c.ready(data, object),
        Filter::Static(c) => true,
        Filter::Link(c) => {
            &&& (c.link.target_col_id as int) < data.cols@.len()
            &&& data.cols@[c.link.target_col_id as int].data.wf()
            &&& !data.cols@[c.link.target_col_id as int].data.allows_dup()
            &&& forall|e: Pair| #[trigger]
                data.cols@[c.link.target_col_id as int].data@.contains(e) ==> filter_ready(
                    &*c.filter,
                    data,
                    e.1,
                )
        },
        Filter::And(c) => forall|i: int|
            0 <= i < c.filters@.len() ==> filter_ready(#[trigger] &c.filters@[i], data, object),
        Filter::Or(c) => forall|i: int|
            0 <= i < c.filters@.len() ==> filter_ready(#[trigger] &c.filters@[i], data, object),
        Filter::Not(c) => filter_ready(&*c.filter, data, object),
    }
}

/// Whether the object with this id satisfies the filter.
pub open spec fn filter_matches(f: &Filter, data: &TxnData, id: i64, object: Seq<u8>) -> bool
    decreases f,
{
    match f {
        Filter::IsNull(c) => c.matches(data, id, object),
        Filter::ByteBetween(c) => c.matches(data, id, object),
        Filter::IntBetween(c) => c.matches(data, id, object),
        Filter::LongBetween(c) => c.matches(data, id, object),
        Filter::FloatBetween(c) => c.matches(data, id, object),
        Filter::DoubleBetween(c) => c.matches(data, id, object),
        Filter::ByteListContains(c) => c.matches(data, id, object),
        Filter::IntListContains(c) => c.matches(data, id, object),
        Filter::LongListContains(c) => c.matches(data, id, object),
        Filter::StringEqual(c) => c.matches(data, id, object),
        Filter::StringStartsWith(c) => c.matches(data, id, object),
        Filter::StringEndsWith(c) => c.matches(data, id, object),
        Filter::StringLike(c) => c.matches(data, id, object),
        Filter::StringListContains(c) => c.matches(data, id, object),
        Filter::Static(c) => c.value,
        Filter::Link(c) => {
            let hits = edges_from(data, c.link, id);
            edges_sound(data, c.link, id) && exists|i: int|
                0 <= i < hits.len() && filter_matches(
                    &*c.filter,
                    data,
                    spec_key_of((#[trigger] hits[i]).1).id,
                    stored_object(data, c.link.target_col_id, hits[i].1),
                )
        },
        Filter::And(c) => forall|i: int|
            0 <= i < c.filters@.len() ==> filter_matches(#[trigger] &c.filters@[i], data, id, object),
        Filter::Or(c) => exists|i: int|
            0 <= i < c.filters@.len() && filter_matches(#[trigger] &c.filters@[i], data, id, object),
        Filter::Not(c) => !filter_matches(&*c.filter, data, id, object),
    }
}

/// Evaluates the filter on the object.
#[verifier::loop_isolation(false)]
pub fn evaluate_filter(f: &Filter, data: &TxnData, id: i64, object: &[u8]) -> (r: bool)
    requires
        filter_ready(f, data, object@),
    ensures
        r == filter_matches(f, data, id, object@),
    decreases f,
{
    match f {
        Filter::IsNull(c) => c.evaluate(data, id, object),
        Filter::ByteBetween(c) => c.evaluate(data, id, object),
        Filter::IntBetween(c) => c.evaluate(data, id, object),
        Filter::LongBetween(c) => c.evaluate(data, id, object),
        Filter::FloatBetween(c) => c.evaluate(data, id, object),
        Filter::DoubleBetween(c) => c.evaluate(data, id, object),
        Filter::ByteListContains(c) => c.evaluate(data, id, object),
        Filter::IntListContains(c) => c.evaluate(data, id, object),
        Filter::LongListContains(c) => c.evaluate(data, id, object),
        Filter::StringEqual(c) => c.evaluate(data, id, object),
        Filter::StringStartsWith(c) => c.evaluate(data, id, object),
        Filter::StringEndsWith(c) => c.evaluate(data, id, object),
        Filter::StringLike(c) => c.evaluate(data, id, object),
        Filter::StringListContains(c) => c.evaluate(data, id, object),
        Filter::Static(c) => c.value,
        Filter::Link(c) => {
            let target_data = &data.cols[c.link.target_col_id as usize].data;
            let ghost hits = edges_from(data, c.link, id);
            let targets = match c.link.iter(target_data, &data.links, id) {
                Ok(targets) => targets,
                Err(_) => {
                    return false;
                },
            };
            let mut i: usize = 0;
            while i < targets.len()
                invariant
                    i <= targets.len(),
                    f == Filter::Link(*c),
                    filter_ready(f, data, object@),
                    *target_data == data.cols@[c.link.target_col_id as int].data,
                    hits == edges_from(data, c.link, id),
                    edges_sound(data, c.link, id),
                    targets.len() == hits.len(),
                    forall|k: int|
                        0 <= k < targets.len() ==> (#[trigger] targets[k]).0.spec_bytes()
                            == hits[k].1 && target_data@.contains((hits[k].1, targets[k].1@)),
                    forall|k: int|
                        0 <= k < i ==> !filter_matches(
                            &*c.filter,
                            data,
                            spec_key_of((#[trigger] hits[k]).1).id,
                            stored_object(data, c.link.target_col_id, hits[k].1),
                        ),
                decreases targets.len() - i,
            {
                let target = &targets[i];
                proof {
                    lemma_key_of(target.0);
                    let key = hits[i as int].1;
                    let o = stored_object(data, c.link.target_col_id, key);
                    assert(target_data@.contains((key, target.1@)));
                    assert(target_data@.contains((key, o)));
                    target_data.lemma_one_value(key, o, target.1@);
                }
                if evaluate_filter(&*c.filter, data, target.0.id, target.1.as_slice()) {
                    return true;
                }
                i += 1;
            }
            false
        },
        Filter::And(c) => {
            let mut i: usize = 0;
            while i < c.filters.len()
                invariant
                    i <= c.filters.len(),
                    f == Filter::And(*c),
                    filter_ready(f, data, object@),
                    forall|k: int|
                        0 <= k < i ==> filter_matches(#[trigger] &c.filters@[k], data, id, object@),
                decreases c.filters.len() - i,
            {
                assert(filter_ready(&c.filters@[i as int], data, object@));
                if !evaluate_filter(&c.filters[i], data, id, object) {
                    return false;
                }
                i += 1;
            }
            true
        },
        Filter::Or(c) => {
            let mut i: usize = 0;
            while i < c.filters.len()
                invariant
                    i <= c.filters.len(),
                    f == Filter::Or(*c),
                    filter_ready(f, data, object@),
                    forall|k: int|
                        0 <= k < i ==> !filter_matches(#[trigger] &c.filters@[k], data, id, object@),
                decreases c.filters.len() - i,
            {
                assert(filter_ready(&c.filters@[i as int], data, object@));
                if evaluate_filter(&c.filters[i], data, id, object) {
                    return true;
                }
                i += 1;
            }
            false
        },
        Filter::Not(c) => !evaluate_filter(&*c.filter, data, id, object),
    }
}

impl Condition for Filter {
    open spec fn ready(&self, data: &TxnData, object: Seq<u8>) -> bool {
        filter_ready(self, data, object)
    }

    open spec fn matches(&self, data: &TxnData, id: i64, object: Seq<u8>) -> bool {
        filter_matches(self, data, id, object)
    }

    fn evaluate(&self, data: &TxnData, id: i64, object: &[u8]) -> (r: bool) {
        evaluate_filter(self, data, id, object)
    }
}

impl Filter {
    /// The conjunction of the filters, or with `and` unset their disjunction.
    pub fn and_or(and: bool, filters: Vec<Filter>) -> (f: Filter)
        ensures
            f == if and {
                Filter::And(AndCond { filters })
            } else {
                Filter::Or(OrCond { filters })
            },
    {
        if and {
            AndCond::filter(filters)
        } else {
            OrCond::filter(filters)
        }
    }

    /// The filter over link `link_index` of the collection: it matches
    /// an object from which an edge of the link leads to an object that
    /// `condition` matches; with `backlink` the link is one that ends at
    /// the collection, walked from its targets. An unknown link is refused.
    pub fn link(
        collection: &IsarCollection,
        link_index: usize,
        backlink: bool,
        condition: Filter,
    ) -> (r: Result<Filter, IsarError>)
        ensures
            r is Ok <==> collection.spec_link(link_index as int, backlink) is Some,
            r matches Err(e) ==> e is IllegalArgument,
            r matches Ok(f) ==> f == Filter::Link(
                LinkCond {
                    link: collection.spec_link(link_index as int, backlink)->Some_0,
                    filter: Box::new(condition),
                },
            ),
    {
        match collection.get_link(link_index, backlink) {
            Some(link) => Ok(Filter::Link(LinkCond { link, filter: Box::new(condition) })),
            None => Err(
                IsarError::IllegalArgument { message: "Link does not exist.".to_string() },
            ),
        }
    }

    /// The filter for the null value of a property: a range from the
    /// null value of its type to itself, or with `upper_unbounded` to the
    /// greatest value of the type; for a string, equality with the null
    /// string. Lists have no such filter.
    pub fn null(property: Property, upper_unbounded: bool) -> (r: Result<Filter, IsarError>)
        ensures
            r is Ok <==> property.data_type.spec_is_static() || property.data_type
                == DataType::String,
            r matches Err(e) ==> e is IllegalArgument,
            r matches Ok(f) ==> f == (match property.data_type {
                DataType::Byte => Filter::ByteBetween(
                    ByteBetweenCond {
                        lower: 0,
                        upper: if upper_unbounded {
                            u8::MAX
                        } else {
                            0
                        },
                        property,
                    },
                ),
                DataType::Int => Filter::IntBetween(
                    IntBetweenCond {
                        lower: i32::MIN,
                        upper: if upper_unbounded {
                            i32::MAX
                        } else {
                            i32::MIN
                        },
                        property,
                    },
                ),
                DataType::Long => Filter::LongBetween(
                    LongBetweenCond {
                        lower: i64::MIN,
                        upper: if upper_unbounded {
                            i64::MAX
                        } else {
                            i64::MIN
                        },
                        property,
                    },
                ),
                DataType::Float => Filter::FloatBetween(
                    FloatBetweenCond {
                        lower: 0x7fc0_0000,
                        upper: if upper_unbounded {
                            0x7f7f_ffffu32
                        } else {
                            0x7fc0_0000u32
                        },
                        property,
                    },
                ),
                DataType::Double => Filter::DoubleBetween(
                    DoubleBetweenCond {
                        lower: 0x7ff8_0000_0000_0000,
                        upper: if upper_unbounded {
                            0x7fef_ffff_ffff_ffffu64
                        } else {
                            0x7ff8_0000_0000_0000u64
                        },
                        property,
                    },
                ),
                _ => Filter::StringEqual(
                    StringEqualCond { property, value: None, case_sensitive: false },
                ),
            }),
    {
        match property.data_type {
            DataType::Byte => {
                let upper: u8 = if upper_unbounded {
                    u8::MAX
                } else {
                    Property::NULL_BYTE
                };
                ByteBetweenCond::filter(property, Property::NULL_BYTE, upper)
            },
            DataType::Int => {
                let upper: i32 = if upper_unbounded {
                    i32::MAX
                } else {
                    Property::NULL_INT
                };
                IntBetweenCond::filter(property, Property::NULL_INT, upper)
            },
            DataType::Float => {
                let upper: u32 = if upper_unbounded {
                    0x7f7f_ffff
                } else {
                    Property::NULL_FLOAT_BITS
                };
                FloatBetweenCond::filter(property, Property::NULL_FLOAT_BITS, upper)
            },
            DataType::Long => {
                let upper: i64 = if upper_unbounded {
                    i64::MAX
                } else {
                    Property::NULL_LONG
                };
                LongBetweenCond::filter(property, Property::NULL_LONG, upper)
            },
            DataType::Double => {
                let upper: u64 = if upper_unbounded {
                    0x7fef_ffff_ffff_ffff
                } else {
                    Property::NULL_DOUBLE_BITS
                };
                DoubleBetweenCond::filter(property, Property::NULL_DOUBLE_BITS, upper)
            },
            DataType::String => Ok(
                Filter::StringEqual(StringEqualCond { property, value: None, case_sensitive: false }),
            ),
            _ => Err(wrong_type()),
        }
    }

    /// The range filter for an integer property from bounds given as
    /// 64-bit numbers: for an `Int` property the bounds are brought into
    /// the range of 32-bit numbers first.
    pub fn long(property: Property, lower: i64, upper: i64) -> (r: Result<Filter, IsarError>)
        ensures
            r is Ok <==> property.data_type == DataType::Int || property.data_type
                == DataType::Long,
            r matches Err(e) ==> e is IllegalArgument,
            r matches Ok(f) ==> f == if property.data_type == DataType::Int {
                Filter::IntBetween(
                    IntBetweenCond {
                        lower: spec_clamp(lower),
                        upper: spec_clamp(upper),
                        property,
                    },
                )
            } else {
                Filter::LongBetween(LongBetweenCond { lower, upper, property })
            },
    {
        if property.data_type == DataType::Int {
            IntBetweenCond::filter(property, clamp_to_int(lower), clamp_to_int(upper))
        } else {
            LongBetweenCond::filter(property, lower, upper)
        }
    }

    /// The range filter for a floating-point property from bounds given
    /// in both precisions, as bit patterns: a `Float` property takes the
    /// single-precision bounds, a `Double` property the others.
    pub fn double(
        property: Property,
        lower: u64,
        upper: u64,
        lower_single: u32,
        upper_single: u32,
    ) -> (r: Result<Filter, IsarError>)
        ensures
            r is Ok <==> property.data_type == DataType::Float || property.data_type
                == DataType::Double,
            r matches Err(e) ==> e is IllegalArgument,
            r matches Ok(f) ==> f == if property.data_type == DataType::Float {
                Filter::FloatBetween(
                    FloatBetweenCond { lower: lower_single, upper: upper_single, property },
                )
            } else {
                Filter::DoubleBetween(DoubleBetweenCond { lower, upper, property })
            },
    {
        if property.data_type == DataType::Float {
            FloatBetweenCond::filter(property, lower_single, upper_single)
        } else {
            DoubleBetweenCond::filter(property, lower, upper)
        }
    }
}

/// The 32-bit number nearest to `v`.
pub open spec fn spec_clamp(v: i64) -> i32 {
    if v < i32::MIN {
        i32::MIN
    } else if v > i32::MAX {
        i32::MAX
    } else {
        v as i32
    }
}

/// The 32-bit number nearest to `v`.
pub fn clamp_to_int(v: i64) -> (r: i32)
    ensures
        r == spec_clamp(v),
{
    if v < i32::MIN as i64 {
        i32::MIN
    } else if v > i32::MAX as i64 {
        i32::MAX
    } else {
        v as i32
    }
}

/// The property whose value the filter tests, with the type that it needs
/// there (none where every type will do); nothing for a filter that
/// tests no value itself.
pub open spec fn spec_reads(f: &Filter) -> Option<(Property, Option<DataType>)> {
    match f {
        Filter::IsNull(c) => Some((c.property, None)),
        Filter::ByteBetween(c) => Some((c.property, Some(DataType::Byte))),
        Filter::IntBetween(c) => Some((c.property, Some(DataType::Int))),
        Filter::LongBetween(c) => Some((c.property, Some(DataType::Long))),
        Filter::FloatBetween(c) => Some((c.property, Some(DataType::Float))),
        Filter::DoubleBetween(c) => Some((c.property, Some(DataType::Double))),
        Filter::ByteListContains(c) => Some((c.property, Some(DataType::ByteList))),
        Filter::IntListContains(c) => Some((c.property, Some(DataType::IntList))),
        Filter::LongListContains(c) => Some((c.property, Some(DataType::LongList))),
        Filter::StringEqual(c) => Some((c.property, Some(DataType::String))),
        Filter::StringStartsWith(c) => Some((c.property, Some(DataType::String))),
        Filter::StringEndsWith(c) => Some((c.property, Some(DataType::String))),
        Filter::StringLike(c) => Some((c.property, Some(DataType::String))),
        Filter::StringListContains(c) => Some((c.property, Some(DataType::StringList))),
        _ => None,
    }
}

/// The property whose value the filter tests, with the type that it needs.
pub fn reads(f: &Filter) -> (r: Option<(Property, Option<DataType>)>)
    ensures
        r == spec_reads(f),
{
    match f {
        Filter::IsNull(c) => Some((c.property, None)),
        Filter::ByteBetween(c) => Some((c.property, Some(DataType::Byte))),
        Filter::IntBetween(c) => Some((c.property, Some(DataType::Int))),
        Filter::LongBetween(c) => Some((c.property, Some(DataType::Long))),
        Filter::FloatBetween(c) => Some((c.property, Some(DataType::Float))),
        Filter::DoubleBetween(c) => Some((c.property, Some(DataType::Double))),
        Filter::ByteListContains(c) => Some((c.property, Some(DataType::ByteList))),
        Filter::IntListContains(c) => Some((c.property, Some(DataType::IntList))),
        Filter::LongListContains(c) => Some((c.property, Some(DataType::LongList))),
        Filter::StringEqual(c) => Some((c.property, Some(DataType::String))),
        Filter::StringStartsWith(c) => Some((c.property, Some(DataType::String))),
        Filter::StringEndsWith(c) => Some((c.property, Some(DataType::String))),
        Filter::StringLike(c) => Some((c.property, Some(DataType::String))),
        Filter::StringListContains(c) => Some((c.property, Some(DataType::StringList))),
        _ => None,
    }
}

/// Whether the property is a slot of the collection's layout and has the
/// type that is needed.
pub open spec fn slot_fits(col: &IsarCollection, p: Property, needed: Option<DataType>) -> bool {
    &&& col.object_info.properties@.contains(p)
    &&& needed matches Some(t) ==> p.data_type == t
}

/// Whether the filter suits the collection `col` of `cols`: every
/// property that it tests is a slot of the collection's layout, of the
/// type that the filter needs, and the inner filter of a link filter
/// suits the collection that the link leads to.
pub open spec fn spec_filter_fits(f: &Filter, cols: Seq<IsarCollection>, col: int) -> bool
    decreases f,
{
    &&& 0 <= col < cols.len()
    &&& match f {
        Filter::Link(c) => spec_filter_fits(&*c.filter, cols, c.link.target_col_id as int),
        Filter::And(c) => forall|i: int|
            0 <= i < c.filters@.len() ==> spec_filter_fits(#[trigger] &c.filters@[i], cols, col),
        Filter::Or(c) => forall|i: int|
            0 <= i < c.filters@.len() ==> spec_filter_fits(#[trigger] &c.filters@[i], cols, col),
        Filter::Not(c) => spec_filter_fits(&*c.filter, cols, col),
        Filter::Static(c) => true,
        _ => spec_reads(f) matches Some(r) && slot_fits(&cols[col], r.0, r.1),
    }
}

/// Whether the filter suits the collection `col` of `cols`.
#[verifier::loop_isolation(false)]
pub fn filter_fits(f: &Filter, cols: &Vec<IsarCollection>, col: usize) -> (r: bool)
    ensures
        r == spec_filter_fits(f, cols@, col as int),
    decreases f,
{
    if col >= cols.len() {
        return false;
    }
    match f {
        Filter::Link(c) => filter_fits(&*c.filter, cols, c.link.target_col_id as usize),
        Filter::And(c) => {
            let mut i: usize = 0;
            while i < c.filters.len()
                invariant
                    i <= c.filters.len(),
                    f == Filter::And(*c),
                    forall|k: int|
                        0 <= k < i ==> spec_filter_fits(#[trigger] &c.filters@[k], cols@, col as int),
                decreases c.filters.len() - i,
            {
                if !filter_fits(&c.filters[i], cols, col) {
                    return false;
                }
                i += 1;
            }
            true
        },
        Filter::Or(c) => {
            let mut i: usize = 0;
            while i < c.filters.len()
                invariant
                    i <= c.filters.len(),
                    f == Filter::Or(*c),
                    forall|k: int|
                        0 <= k < i ==> spec_filter_fits(#[trigger] &c.filters@[k], cols@, col as int),
                decreases c.filters.len() - i,
            {
                if !filter_fits(&c.filters[i], cols, col) {
                    return false;
                }
                i += 1;
            }
            true
        },
        Filter::Not(c) => filter_fits(&*c.filter, cols, col),
        Filter::Static(c) => true,
        _ => match reads(f) {
            Some((p, needed)) => {
                let typed = match needed {
                    Some(t) => p.data_type == t,
                    None => true,
                };
                typed && cols[col].object_info.has_property(p)
            },
            None => false,
        },
    }
}

/// A filter that suits a collection can be evaluated on every
/// well-formed object of it, in every state that holds the collections
/// in good order.
pub proof fn lemma_filter_fits(
    f: &Filter,
    cols: Seq<IsarCollection>,
    col: int,
    data: &TxnData,
    object: Seq<u8>,
)
    requires
        spec_filter_fits(f, cols, col),
        data.cols@.len() == cols.len(),
        forall|c: int| 0 <= c < cols.len() ==> (#[trigger] cols[c]).id == c && cols[c].stored_in(data),
        cols[col].object_info.spec_valid(object),
    ensures
        filter_ready(f, data, object),
    decreases f,
{
    match f {
        Filter::Link(c) => {
            let target = c.link.target_col_id as int;
            assert(spec_filter_fits(&*c.filter, cols, target));
            assert(cols[target].stored_in(data));
            assert forall|e: Pair| #[trigger]
                data.cols@[target].data@.contains(e) implies filter_ready(&*c.filter, data, e.1) by {
                lemma_filter_fits(&*c.filter, cols, target, data, e.1);
            }
        },
        Filter::And(c) => {
            assert forall|i: int| 0 <= i < c.filters@.len() implies filter_ready(
                #[trigger] &c.filters@[i],
                data,
                object,
            ) by {
                lemma_filter_fits(&c.filters@[i], cols, col, data, object);
            }
        },
        Filter::Or(c) => {
            assert forall|i: int| 0 <= i < c.filters@.len() implies filter_ready(
                #[trigger] &c.filters@[i],
                data,
                object,
            ) by {
                lemma_filter_fits(&c.filters@[i], cols, col, data, object);
            }
        },
        Filter::Not(c) => {
            lemma_filter_fits(&*c.filter, cols, col, data, object);
        },
        Filter::Static(c) => {},
        _ => {
            let r = spec_reads(f)->Some_0;
            cols[col].object_info.lemma_slot_readable(object, r.0);
        },
    }
}

} // verus!
