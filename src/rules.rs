use vstd::prelude::*;
use vstd::utf8::encode_utf8;
use crate::tree::{InstanceNode, Property, first_property, lemma_first_property_bounds, find_property};
use crate::encode::{escape_field, push_field, no_separators, NEWLINE, EQUALS};

verus! {

/// How the nodes of one class are laid out in the target store.
pub enum Rule {
    /// Always a container; the node's properties are not kept.
    Folder,
    /// Plain text taken from one property, under a file suffix of its own.
    Text(TextKind),
    /// All properties in the structured line encoding.
    Generic,
}

/// The classes whose payload is the text of one property.
pub enum TextKind {
    ServerScript,
    ClientScript,
    ModuleScript,
    StringValue,
}

pub open spec fn rule_of(class: Seq<char>) -> Option<Rule> {
    if class == "Folder"@ {
        Some(Rule::Folder)
    } else if class == "Script"@ {
        Some(Rule::Text(TextKind::ServerScript))
    } else if class == "LocalScript"@ {
        Some(Rule::Text(TextKind::ClientScript))
    } else if class == "ModuleScript"@ {
        Some(Rule::Text(TextKind::ModuleScript))
    } else if class == "StringValue"@ {
        Some(Rule::Text(TextKind::StringValue))
    } else if class == "Model"@ || class == "Part"@ || class == "Configuration"@ {
        Some(Rule::Generic)
    } else {
        None
    }
}

/// The rule registered for a class tag, if any.
pub fn rule_for(class: &String) -> (r: Option<Rule>)
    ensures
        r == rule_of(class@),
{
    if *class == String::from_str("Folder") {
        Some(Rule::Folder)
    } else if *class == String::from_str("Script") {
        Some(Rule::Text(TextKind::ServerScript))
    } else if *class == String::from_str("LocalScript") {
        Some(Rule::Text(TextKind::ClientScript))
    } else if *class == String::from_str("ModuleScript") {
        Some(Rule::Text(TextKind::ModuleScript))
    } else if *class == String::from_str("StringValue") {
        Some(Rule::Text(TextKind::StringValue))
    } else if *class == String::from_str("Model") || *class == String::from_str("Part")
        || *class == String::from_str("Configuration") {
        Some(Rule::Generic)
    } else {
        None
    }
}


/// The file suffix of a rule's leaves, in ASCII: `.server.lua`, `.client.lua`,
/// `.lua`, none, `.model`.
pub open spec fn suffix_of(rule: Rule) -> Seq<u8> {
    match rule {
        Rule::Text(TextKind::ServerScript) => seq![46u8, 115, 101, 114, 118, 101, 114, 46, 108, 117, 97],
        Rule::Text(TextKind::ClientScript) => seq![46u8, 99, 108, 105, 101, 110, 116, 46, 108, 117, 97],
        Rule::Text(TextKind::ModuleScript) => seq![46u8, 108, 117, 97],
        Rule::Text(TextKind::StringValue) => Seq::empty(),
        Rule::Generic => seq![46u8, 109, 111, 100, 101, 108],
        Rule::Folder => Seq::empty(),
    }
}

/// The name of the file that holds a container's own content, before its suffix.
pub open spec fn init_name() -> Seq<u8> {
    seq![105u8, 110, 105, 116]
}

pub proof fn lemma_suffix_clean(rule: Rule)
    ensures
        no_separators(suffix_of(rule)),
        no_separators(init_name() + suffix_of(rule)),
        init_name().len() == 4,
{
    let s = suffix_of(rule);
    let t = init_name() + s;
    assert(no_separators(s));
    assert forall|i: int| 0 <= i < t.len() implies t[i] != 47u8 && t[i] != 92u8 by {
        if i >= 4 {
            assert(t[i] == s[i - 4]);
        }
    }
}

/// The property that holds the text of a text class.
pub open spec fn text_key(kind: TextKind) -> Seq<char> {
    match kind {
        TextKind::StringValue => "Value"@,
        _ => "Source"@,
    }
}

/// One line of the structured encoding: `name=value`, both escaped.
pub open spec fn property_line(p: Property) -> Seq<u8> {
    escape_field(encode_utf8(p.name@)) + seq![EQUALS] + escape_field(encode_utf8(p.value@))
        + seq![NEWLINE]
}

pub open spec fn property_lines(props: Seq<Property>) -> Seq<u8>
    decreases props.len(),
{
    if props.len() == 0 {
        Seq::empty()
    } else {
        property_lines(props.drop_last()) + property_line(props.last())
    }
}

/// The structured encoding of a node: its class tag on the first line, then
/// one line for each property, in order.
pub open spec fn generic_payload(node: InstanceNode) -> Seq<u8> {
    escape_field(encode_utf8(node.class_name@)) + seq![NEWLINE] + property_lines(
        node.properties@,
    )
}

/// The content of a node under its rule; `None` where a text class lacks its property.
pub open spec fn payload_of(rule: Rule, node: InstanceNode) -> Option<Seq<u8>> {
    match rule {
        Rule::Folder => Some(Seq::empty()),
        Rule::Text(kind) => match first_property(node.properties@, text_key(kind)) {
            Some(i) => Some(encode_utf8(node.properties@[i].value@)),
            None => None,
        },
        Rule::Generic => Some(generic_payload(node)),
    }
}

/// Appends the bytes of `b` to `out`.
pub fn push_bytes(out: &mut Vec<u8>, b: &[u8])
    ensures
        final(out)@ == old(out)@ + b@,
{
    let ghost start = out@;
    let mut i: usize = 0;
    while i < b.len()
        invariant
            i <= b@.len(),
            out@ =~= start + b@.subrange(0, i as int),
        decreases b@.len() - i,
    {
        out.push(b[i]);
        i = i + 1;
        assert(out@ =~= start + b@.subrange(0, i as int));
    }
    assert(b@.subrange(0, b@.len() as int) =~= b@);
}

/// Appends the file suffix of `rule` to `out`.
pub fn push_suffix(out: &mut Vec<u8>, rule: &Rule)
    ensures
        final(out)@ == old(out)@ + suffix_of(*rule),
{
    let ghost start = out@;
    match rule {
        Rule::Text(TextKind::ServerScript) => {
            push_bytes(out, &[46u8, 115, 101, 114, 118, 101, 114, 46, 108, 117, 97]);
        },
        Rule::Text(TextKind::ClientScript) => {
            push_bytes(out, &[46u8, 99, 108, 105, 101, 110, 116, 46, 108, 117, 97]);
        },
        Rule::Text(TextKind::ModuleScript) => {
            push_bytes(out, &[46u8, 108, 117, 97]);
        },
        Rule::Generic => {
            push_bytes(out, &[46u8, 109, 111, 100, 101, 108]);
        },
        _ => {},
    }
    assert(out@ =~= start + suffix_of(*rule));
}

/// Encodes a node's class tag and properties in the structured line format.
pub fn encode_generic(node: &InstanceNode) -> (r: Vec<u8>)
    ensures
        r@ == generic_payload(*node),
{
    let mut out: Vec<u8> = Vec::new();
    push_field(&mut out, node.class_name.as_str().as_bytes());
    out.push(NEWLINE);
    let ghost head = out@;
    assert(head =~= escape_field(encode_utf8(node.class_name@)) + seq![NEWLINE]);
    let mut i: usize = 0;
    while i < node.properties.len()
        invariant
            i <= node.properties@.len(),
            out@ == head + property_lines(node.properties@.subrange(0, i as int)),
        decreases node.properties@.len() - i,
    {
        let p = &node.properties[i];
        push_field(&mut out, p.name.as_str().as_bytes());
        out.push(EQUALS);
        push_field(&mut out, p.value.as_str().as_bytes());
        out.push(NEWLINE);
        proof {
            let t = node.properties@.subrange(0, i + 1);
            assert(t.drop_last() =~= node.properties@.subrange(0, i as int));
            assert(t.last() == *p);
        }
        i = i + 1;
        assert(out@ =~= head + property_lines(node.properties@.subrange(0, i as int)));
    }
    assert(node.properties@.subrange(0, node.properties@.len() as int) =~= node.properties@);
    out
}

/// The content of a node's file under `rule`, or `None` where a text class
/// lacks the property that holds its text.
pub fn encode_payload(rule: &Rule, node: &InstanceNode) -> (r: Option<Vec<u8>>)
    ensures
        r matches Some(v) ==> payload_of(*rule, *node) == Some(v@),
        r is None ==> payload_of(*rule, *node) is None,
{
    match rule {
        Rule::Folder => Some(Vec::new()),
        Rule::Generic => Some(encode_generic(node)),
        Rule::Text(kind) => {
            let key = match kind {
                TextKind::StringValue => String::from_str("Value"),
                _ => String::from_str("Source"),
            };
            assert(key@ == text_key(*kind));
            match find_property(&node.properties, &key) {
                Some(i) => {
                    proof {
                        lemma_first_property_bounds(node.properties@, key@);
                    }
                    let mut out: Vec<u8> = Vec::new();
                    push_bytes(&mut out, node.properties[i].value.as_str().as_bytes());
                    assert(out@ =~= encode_utf8(node.properties@[i as int].value@));
                    Some(out)
                },
                None => None,
            }
        },
    }
}

} // verus!
