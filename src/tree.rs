use vstd::prelude::*;

verus! {

/// One named property of an instance, with its value already in text form.
#[derive(Debug, PartialEq, Eq)]
pub struct Property {
    pub name: String,
    pub value: String,
}

/// A node of the instance tree: a name, a class tag, its properties in order
/// and its children in order.
#[derive(Debug, PartialEq, Eq)]
pub struct InstanceNode {
    pub name: String,
    pub class_name: String,
    pub properties: Vec<Property>,
    pub children: Vec<InstanceNode>,
}

impl Property {
    pub fn new(name: String, value: String) -> (r: Property)
        ensures
            r.name == name,
            r.value == value,
    {
        Property { name, value }
    }
}

impl InstanceNode {
    /// A node without properties or children.
    pub fn new(name: String, class_name: String) -> (r: InstanceNode)
        ensures
            r.name == name,
            r.class_name == class_name,
            r.properties@.len() == 0,
            r.children@.len() == 0,
    {
        InstanceNode { name, class_name, properties: Vec::new(), children: Vec::new() }
    }

    /// Adds a property after the node's other properties.
    pub fn add_property(&mut self, name: String, value: String)
        ensures
            final(self).properties@ == old(self).properties@.push(Property { name, value }),
            final(self).name == old(self).name,
            final(self).class_name == old(self).class_name,
            final(self).children == old(self).children,
    {
        self.properties.push(Property { name, value });
    }

    /// Adds a child after the node's other children.
    pub fn add_child(&mut self, child: InstanceNode)
        ensures
            final(self).children@ == old(self).children@.push(child),
            final(self).name == old(self).name,
            final(self).class_name == old(self).class_name,
            final(self).properties == old(self).properties,
    {
        self.children.push(child);
    }
}

/// The index of the first property named `key`.
pub open spec fn first_property(props: Seq<Property>, key: Seq<char>) -> Option<int>
    decreases props.len(),
{
    if props.len() == 0 {
        None
    } else {
        match first_property(props.drop_last(), key) {
            Some(i) => Some(i),
            None => if props.last().name@ == key {
                Some(props.len() - 1)
            } else {
                None
            },
        }
    }
}

pub proof fn lemma_first_property_bounds(props: Seq<Property>, key: Seq<char>)
    ensures
        first_property(props, key) matches Some(i) ==> 0 <= i < props.len() && props[i].name@
            == key,
    decreases props.len(),
{
    if props.len() > 0 {
        lemma_first_property_bounds(props.drop_last(), key);
    }
}

/// Looks up the first property named `key`.
pub fn find_property(props: &Vec<Property>, key: &String) -> (r: Option<usize>)
    ensures
        r matches Some(i) ==> first_property(props@, key@) == Some(i as int),
        r is None ==> first_property(props@, key@) is None,
{
    let mut i: usize = 0;
    while i < props.len()
        invariant
            i <= props@.len(),
            first_property(props@.subrange(0, i as int), key@) is None,
        decreases props@.len() - i,
    {
        let ghost t = props@.subrange(0, i + 1);
        assert(t.drop_last() =~= props@.subrange(0, i as int));
        if props[i].name == *key {
            assert(first_property(props@, key@) == Some(i as int)) by {
                lemma_first_of_prefix(props@, key@, i as int + 1);
            }
            return Some(i);
        }
        i = i + 1;
    }
    assert(props@.subrange(0, props@.len() as int) =~= props@);
    None
}

/// A match found in a prefix is the first match of the whole sequence.
proof fn lemma_first_of_prefix(props: Seq<Property>, key: Seq<char>, n: int)
    requires
        0 <= n <= props.len(),
        first_property(props.subrange(0, n), key) is Some,
    ensures
        first_property(props, key) == first_property(props.subrange(0, n), key),
    decreases props.len() - n,
{
    if n < props.len() {
        assert(props.subrange(0, n + 1).drop_last() =~= props.subrange(0, n));
        lemma_first_of_prefix(props, key, n + 1);
    } else {
        assert(props.subrange(0, n) =~= props);
    }
}

} // verus!
