use crate::object::data_type::DataType;
use crate::object::object_info::ObjectInfo;
use crate::object::property::Property;
use vstd::prelude::*;

verus! {

/// The part of the header in which a value of the type lies: 0 for
/// bytes, 1 for four-byte numbers, 2 for eight-byte numbers, 3 for the
/// descriptors of strings and lists.
pub open spec fn spec_group(data_type: DataType) -> int {
    match data_type {
        DataType::Byte => 0,
        DataType::Int | DataType::Float => 1,
        DataType::Long | DataType::Double => 2,
        _ => 3,
    }
}

/// How many of the first `n` types lie in the part `group`.
pub open spec fn group_count(types: Seq<DataType>, group: int, n: int) -> int
    decreases n,
{
    if n <= 0 {
        0
    } else {
        group_count(types, group, n - 1) + if spec_group(types[n - 1]) == group {
            1int
        } else {
            0int
        }
    }
}

/// `n` rounded up to a multiple of 4.
pub open spec fn up4(n: int) -> int {
    if n % 4 == 0 {
        n
    } else {
        n + 4 - n % 4
    }
}

/// `n` rounded up to a multiple of 8.
pub open spec fn up8(n: int) -> int {
    if n % 8 == 0 {
        n
    } else {
        n + 8 - n % 8
    }
}

/// Where the part `group` of the header starts: the bytes at 0, the
/// four-byte numbers at the next multiple of 4 behind them, the
/// eight-byte numbers at the next multiple of 8 behind those, the
/// descriptors behind the eight-byte numbers.
pub open spec fn group_start(types: Seq<DataType>, group: int) -> int {
    let n = types.len() as int;
    let four = up4(group_count(types, 0, n));
    let eight = up8(four + 4 * group_count(types, 1, n));
    if group == 0 {
        0
    } else if group == 1 {
        four
    } else if group == 2 {
        eight
    } else {
        eight + 8 * group_count(types, 2, n)
    }
}

/// The size of the header of objects with these types.
pub open spec fn header_size(types: Seq<DataType>) -> int {
    group_start(types, 3) + 8 * group_count(types, 3, types.len() as int)
}

/// The offset of property `i`: its part's start, and behind the earlier
/// properties of the same part.
pub open spec fn spec_offset(types: Seq<DataType>, i: int) -> int {
    let group = spec_group(types[i]);
    let rank = group_count(types, group, i);
    if group == 0 {
        rank
    } else if group == 1 {
        group_start(types, 1) + 4 * rank
    } else {
        group_start(types, group) + 8 * rank
    }
}

/// Every type lies in one of the four parts.
pub proof fn lemma_group_counts_sum(types: Seq<DataType>, n: int)
    requires
        0 <= n <= types.len(),
    ensures
        group_count(types, 0, n) + group_count(types, 1, n) + group_count(types, 2, n)
            + group_count(types, 3, n) == n,
    decreases n,
{
    if n > 0 {
        lemma_group_counts_sum(types, n - 1);
    }
}

pub proof fn lemma_group_count_bounds(types: Seq<DataType>, group: int, a: int, b: int)
    requires
        0 <= a <= b <= types.len(),
    ensures
        0 <= group_count(types, group, a) <= group_count(types, group, b) <= b,
        a < b && spec_group(types[a]) == group ==> group_count(types, group, a) < group_count(
            types,
            group,
            b,
        ),
    decreases b - a,
{
    if a == b {
        lemma_group_count_nonnegative(types, group, a);
    } else {
        lemma_group_count_bounds(types, group, a, b - 1);
        if a == b - 1 {
        }
    }
}

pub proof fn lemma_group_count_nonnegative(types: Seq<DataType>, group: int, n: int)
    requires
        n <= types.len(),
    ensures
        0 <= group_count(types, group, n),
        n >= 0 ==> group_count(types, group, n) <= n,
    decreases n,
{
    if n > 0 {
        lemma_group_count_nonnegative(types, group, n - 1);
    }
}

/// The slots that the layout gives to two properties share no byte, and
/// every slot lies inside the header.
pub proof fn lemma_layout_disjoint(types: Seq<DataType>, i: int, j: int)
    requires
        0 <= i < j < types.len(),
    ensures
        spec_offset(types, i) + types[i].spec_static_size() <= spec_offset(types, j) || spec_offset(
            types,
            j,
        ) + types[j].spec_static_size() <= spec_offset(types, i),
{
    let n = types.len() as int;
    let gi = spec_group(types[i]);
    let gj = spec_group(types[j]);
    if gi == gj {
        lemma_group_count_bounds(types, gi, i, j);
    } else {
        lemma_group_count_bounds(types, gi, i, n);
        lemma_group_count_bounds(types, gj, j, n);
        lemma_group_count_bounds(types, 0, 0, n);
        lemma_group_count_bounds(types, 1, 0, n);
        lemma_group_count_bounds(types, 2, 0, n);
    }
}

/// Every slot of the layout lies inside the header.
pub proof fn lemma_layout_inside(types: Seq<DataType>, i: int)
    requires
        0 <= i < types.len(),
    ensures
        0 <= spec_offset(types, i),
        spec_offset(types, i) + types[i].spec_static_size() <= header_size(types),
        header_size(types) <= 8 * types.len() + 16,
{
    let n = types.len() as int;
    let g = spec_group(types[i]);
    lemma_group_count_bounds(types, g, i, n);
    lemma_group_count_bounds(types, 0, 0, n);
    lemma_group_count_bounds(types, 1, 0, n);
    lemma_group_count_bounds(types, 2, 0, n);
    lemma_group_count_bounds(types, 3, 0, n);
    lemma_group_counts_sum(types, n);
}

/// The part of the header in which a value of the type lies.
pub fn group_of(data_type: DataType) -> (g: u8)
    ensures
        g == spec_group(data_type),
{
    match data_type {
        DataType::Byte => 0,
        DataType::Int | DataType::Float => 1,
        DataType::Long | DataType::Double => 2,
        _ => 3,
    }
}

/// Whether `info` is the layout of objects with properties of these
/// types, in this order: the header has the size that the types need, and
/// each property has its type and the offset that the format gives it.
pub open spec fn laid_out(info: &ObjectInfo, types: Seq<DataType>) -> bool {
    &&& info.static_size == header_size(types)
    &&& info.properties@.len() == types.len()
    &&& forall|i: int|
        0 <= i < types.len() ==> (#[trigger] info.properties@[i]).data_type == types[i]
            && info.properties@[i].offset == spec_offset(types, i)
}

/// The layout of objects with properties of these types, in this order:
/// each property's slot by the rules of the format. `None` for more
/// properties than a header can hold.
pub fn compute_layout(types: &Vec<DataType>) -> (r: Option<ObjectInfo>)
    ensures
        r is Some <==> types@.len() <= 0x0fff_ffff,
        r matches Some(info) ==> {
            &&& info.wf()
            &&& info.slots_disjoint()
            &&& laid_out(&info, types@)
            &&& info.static_size == header_size(types@)
            &&& info.properties@.len() == types@.len()
            &&& forall|i: int|
                0 <= i < types@.len() ==> (#[trigger] info.properties@[i]).data_type == types@[i]
                    && info.properties@[i].offset == spec_offset(types@, i)
        },
{
    let n: usize = types.len();
    if n > 0x0fff_ffff {
        return None;
    }
    let mut c0: usize = 0;
    let mut c1: usize = 0;
    let mut c2: usize = 0;
    let mut c3: usize = 0;
    let mut i: usize = 0;
    while i < n
        invariant
            i <= n,
            n == types@.len(),
            n <= 0x0fff_ffff,
            c0 == group_count(types@, 0, i as int),
            c1 == group_count(types@, 1, i as int),
            c2 == group_count(types@, 2, i as int),
            c3 == group_count(types@, 3, i as int),
            c0 + c1 + c2 + c3 == i,
        decreases n - i,
    {
        let g = group_of(types[i]);
        if g == 0 {
            c0 += 1;
        } else if g == 1 {
            c1 += 1;
        } else if g == 2 {
            c2 += 1;
        } else {
            c3 += 1;
        }
        i += 1;
    }
    let four: usize = if c0 % 4 == 0 {
        c0
    } else {
        c0 + 4 - c0 % 4
    };
    let after_four: usize = four + 4 * c1;
    let eight: usize = if after_four % 8 == 0 {
        after_four
    } else {
        after_four + 8 - after_four % 8
    };
    let dynamic: usize = eight + 8 * c2;
    let static_size: usize = dynamic + 8 * c3;
    let mut properties: Vec<Property> = Vec::new();
    let mut r0: usize = 0;
    let mut r1: usize = 0;
    let mut r2: usize = 0;
    let mut r3: usize = 0;
    let mut k: usize = 0;
    while k < n
        invariant
            k <= n,
            n == types@.len(),
            n <= 0x0fff_ffff,
            four == group_start(types@, 1),
            eight == group_start(types@, 2),
            dynamic == group_start(types@, 3),
            static_size == header_size(types@),
            static_size <= 0xffff_ffff,
            r0 + r1 + r2 + r3 == k,
            r0 == group_count(types@, 0, k as int),
            r1 == group_count(types@, 1, k as int),
            r2 == group_count(types@, 2, k as int),
            r3 == group_count(types@, 3, k as int),
            properties@.len() == k,
            forall|x: int|
                0 <= x < k ==> (#[trigger] properties@[x]).data_type == types@[x]
                    && properties@[x].offset == spec_offset(types@, x),
        decreases n - k,
    {
        proof {
            lemma_layout_inside(types@, k as int);
            lemma_group_count_bounds(types@, 0, k as int, n as int);
            lemma_group_count_bounds(types@, 1, k as int, n as int);
            lemma_group_count_bounds(types@, 2, k as int, n as int);
            lemma_group_count_bounds(types@, 3, k as int, n as int);
        }
        let data_type = types[k];
        let g = group_of(data_type);
        let offset: usize = if g == 0 {
            r0
        } else if g == 1 {
            four + 4 * r1
        } else if g == 2 {
            eight + 8 * r2
        } else {
            dynamic + 8 * r3
        };
        properties.push(Property::new(data_type, offset));
        if g == 0 {
            r0 += 1;
        } else if g == 1 {
            r1 += 1;
        } else if g == 2 {
            r2 += 1;
        } else {
            r3 += 1;
        }
        k += 1;
    }
    let info = ObjectInfo { properties, static_size };
    proof {
        assert forall|x: int| 0 <= x < info.properties@.len() implies (
        #[trigger] info.properties@[x]).offset + info.properties@[x].data_type.spec_static_size()
            <= info.static_size by {
            lemma_layout_inside(types@, x);
        }
        assert forall|x: int, y: int| 0 <= x < y < info.properties@.len() implies {
            let p = #[trigger] info.properties@[x];
            let q = #[trigger] info.properties@[y];
            p.offset + p.data_type.spec_static_size() <= q.offset || q.offset
                + q.data_type.spec_static_size() <= p.offset
        } by {
            lemma_layout_disjoint(types@, x, y);
        }
    }
    Some(info)
}

} // verus!
