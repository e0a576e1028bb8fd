//! Parameter filters of a subscription: values given to named wildcards of
//! its pattern before it is subscribed.
use vstd::prelude::*;

use crate::text::same_text;
use crate::topic_pattern_item::{PatternErrorView, TopicPatternError};
use crate::topic_pattern_path::{Binding, TopicPatternPath, bindings_view, has_plus_named, rebind};

verus! {

/// No parameter name occurs twice.
pub open spec fn names_distinct(bs: Seq<(Seq<char>, Seq<char>)>) -> bool {
    forall|k: int, l: int| 0 <= k < l < bs.len() ==> (#[trigger] bs[k]).0 != (#[trigger] bs[l]).0
}

/// Adds a value for a topic wildcard parameter: replaces the value of a
/// parameter already given, else appends it.
pub fn add_parameter_filter(filters: &mut Vec<Binding>, param_name: &str, value: &str)
    requires
        names_distinct(bindings_view(old(filters)@)),
    ensures
        bindings_view(final(filters)@) == rebind(bindings_view(old(filters)@), param_name@, value@),
        names_distinct(bindings_view(final(filters)@)),
{
    let ghost old_b = bindings_view(filters@);
    let name = param_name.to_owned();
    let val = value.to_owned();
    let mut k: usize = 0;
    while k < filters.len() && !same_text(&filters[k].0, &name)
        invariant
            0 <= k <= filters@.len(),
            old_b == bindings_view(filters@),
            name@ == param_name@,
            forall|m: int| 0 <= m < k ==> old_b[m].0 != name@,
        decreases filters@.len() - k,
    {
        k = k + 1;
    }
    if k < filters.len() {
        filters.set(k, (name, val));
        proof {
            assert(old_b[k as int].0 == param_name@);
            assert forall|kk: int| 0 <= kk < old_b.len() && (#[trigger] old_b[kk]).0 == param_name@ implies kk
                == k by {
                if kk > k {
                    assert(old_b[k as int].0 != old_b[kk].0);
                }
            }
            assert(bindings_view(filters@) =~= old_b.update(k as int, (param_name@, value@)));
            assert forall|a: int, b: int| 0 <= a < b < bindings_view(filters@).len() implies (#[trigger] bindings_view(
                filters@,
            )[a]).0 != (#[trigger] bindings_view(filters@)[b]).0 by {
                assert(old_b[a].0 != old_b[b].0);
            }
        }
    } else {
        filters.push((name, val));
        proof {
            assert(!exists|kk: int| 0 <= kk < old_b.len() && (#[trigger] old_b[kk]).0 == param_name@);
            assert(bindings_view(filters@) =~= old_b.push((param_name@, value@)));
        }
    }
}

/// The bindings after giving each filter, in order.
pub open spec fn rebind_all(bs: Seq<(Seq<char>, Seq<char>)>, filters: Seq<(Seq<char>, Seq<char>)>) -> Seq<
    (Seq<char>, Seq<char>),
>
    decreases filters.len(),
{
    if filters.len() == 0 {
        bs
    } else {
        rebind(rebind_all(bs, filters.drop_last()), filters.last().0, filters.last().1)
    }
}

/// The index of the first filter whose parameter the pattern lacks, if any.
pub open spec fn first_unknown_filter(
    items: Seq<crate::topic_pattern_item::ItemView>,
    filters: Seq<(Seq<char>, Seq<char>)>,
) -> Option<int> {
    if exists|k: int| 0 <= k < filters.len() && !has_plus_named(items, #[trigger] filters[k].0) {
        Some(
            choose|k: int|
                0 <= k < filters.len() && !has_plus_named(items, #[trigger] filters[k].0) && forall|m: int|
                    0 <= m < k ==> has_plus_named(items, #[trigger] filters[m].0),
        )
    } else {
        None
    }
}

/// Binds every filter into the pattern, in order; fails on the first filter
/// whose parameter the pattern does not have.
pub fn apply_parameter_filters(pattern: TopicPatternPath, filters: &Vec<Binding>) -> (r: Result<
    TopicPatternPath,
    TopicPatternError,
>)
    ensures
        (forall|k: int|
            0 <= k < filters@.len() ==> has_plus_named(pattern.spec_items(), #[trigger] filters@[k].0@))
            ==> (r matches Ok(p) && p.spec_items() == pattern.spec_items() && p.spec_template()
            == pattern.spec_template() && p.spec_cache() == pattern.spec_cache() && (filters@.len() > 0
            ==> p.spec_bindings() == Some(
            rebind_all(
                match pattern.spec_bindings() {
                    Some(b) => b,
                    None => Seq::empty(),
                },
                bindings_view(filters@),
            ),
        )) && (filters@.len() == 0 ==> p.spec_bindings() == pattern.spec_bindings())),
        (exists|k: int|
            0 <= k < filters@.len() && !has_plus_named(pattern.spec_items(), #[trigger] filters@[k].0@))
            ==> (r matches Err(e) && exists|k: int|
            0 <= k < filters@.len() && !has_plus_named(pattern.spec_items(), filters@[k].0@) && (forall|m: int|
                0 <= m < k ==> has_plus_named(pattern.spec_items(), #[trigger] filters@[m].0@)) && e@
                == PatternErrorView::WildcardUsage(
                "Parameter '"@ + filters@[k].0@ + "' not found in pattern '"@
                    + pattern.spec_template() + "'"@,
            )),
{
    let ghost items = pattern.spec_items();
    let ghost template = pattern.spec_template();
    let ghost cache = pattern.spec_cache();
    let ghost start = match pattern.spec_bindings() {
        Some(b) => b,
        None => Seq::empty(),
    };
    let ghost start_opt = pattern.spec_bindings();
    let mut p = pattern;
    let mut i: usize = 0;
    while i < filters.len()
        invariant
            0 <= i <= filters@.len(),
            items == pattern.spec_items(),
            template == pattern.spec_template(),
            cache == pattern.spec_cache(),
            start_opt == pattern.spec_bindings(),
            start == match start_opt {
                Some(b) => b,
                None => Seq::empty(),
            },
            p.spec_items() == items,
            p.spec_template() == template,
            p.spec_cache() == cache,
            i == 0 ==> p.spec_bindings() == start_opt,
            i > 0 ==> p.spec_bindings() == Some(rebind_all(start, bindings_view(filters@).take(i as int))),
            forall|m: int| 0 <= m < i ==> has_plus_named(items, #[trigger] filters@[m].0@),
        decreases filters@.len() - i,
    {
        let ghost before = p.spec_bindings();
        let (name, value) = &filters[i];
        match p.bind_parameter(name.as_str(), value.as_str()) {
            Ok(next) => {
                proof {
                    let t = bindings_view(filters@).take(i + 1);
                    assert(t.drop_last() =~= bindings_view(filters@).take(i as int));
                    assert(t.last() == (filters@[i as int].0@, filters@[i as int].1@));
                    if i == 0 {
                        assert(bindings_view(filters@).take(0) =~= Seq::<(Seq<char>, Seq<char>)>::empty());
                        assert(rebind_all(start, bindings_view(filters@).take(0)) == start);
                    }
                    assert(rebind_all(start, t) == rebind(rebind_all(start, t.drop_last()), t.last().0, t.last().1));
                }
                p = next;
            },
            Err(e) => {
                proof {
                    assert(name@ == filters@[i as int].0@);
                    assert(!has_plus_named(items, filters@[i as int].0@));
                    assert(e@ == PatternErrorView::WildcardUsage(
                        "Parameter '"@ + filters@[i as int].0@ + "' not found in pattern '"@ + template + "'"@,
                    ));
                    assert(!has_plus_named(pattern.spec_items(), filters@[i as int].0@));
                }
                return Err(e);
            },
        }
        i = i + 1;
    }
    proof {
        assert(bindings_view(filters@).take(filters@.len() as int) =~= bindings_view(filters@));
    }
    Ok(p)
}

} // verus!
