use vstd::prelude::*;

verus! {

pub const SLASH: u8 = 47;

pub const BACKSLASH: u8 = 92;

pub const UNDERSCORE: u8 = 95;

pub const DOT: u8 = 46;

pub const EQUALS: u8 = 61;

pub const NEWLINE: u8 = 10;

pub const LETTER_N: u8 = 110;

/// A byte of a node name as it stands in a path segment: separators become underscores.
pub open spec fn segment_byte(b: u8) -> u8 {
    if b == SLASH || b == BACKSLASH {
        UNDERSCORE
    } else {
        b
    }
}

pub open spec fn replace_separators(s: Seq<u8>) -> Seq<u8> {
    s.map_values(|b: u8| segment_byte(b))
}

/// Names that cannot stand as a path segment: empty, `.` and `..`.
pub open spec fn is_reserved_segment(s: Seq<u8>) -> bool {
    s.len() == 0 || s =~= seq![DOT] || s =~= seq![DOT, DOT]
}

/// The path segment of a node name: separators replaced, and an underscore in
/// front of a name that would otherwise be empty or a directory traversal.
pub open spec fn escape_segment(name: Seq<u8>) -> Seq<u8> {
    let r = replace_separators(name);
    if is_reserved_segment(r) {
        seq![UNDERSCORE] + r
    } else {
        r
    }
}

/// A segment that may stand in a path: non-empty, free of separators, and no traversal.
pub open spec fn wf_segment(s: Seq<u8>) -> bool {
    &&& !is_reserved_segment(s)
    &&& forall|i: int| 0 <= i < s.len() ==> s[i] != SLASH && s[i] != BACKSLASH
}

pub fn escape_name(name: &[u8]) -> (r: Vec<u8>)
    ensures
        r@ == escape_segment(name@),
        wf_segment(r@),
{
    let mut out: Vec<u8> = Vec::new();
    let mut i: usize = 0;
    while i < name.len()
        invariant
            i <= name@.len(),
            out@ =~= replace_separators(name@.subrange(0, i as int)),
        decreases name@.len() - i,
    {
        let b = name[i];
        let c: u8 = if b == SLASH || b == BACKSLASH { UNDERSCORE } else { b };
        out.push(c);
        i = i + 1;
        assert(out@ =~= replace_separators(name@.subrange(0, i as int)));
    }
    assert(name@.subrange(0, name@.len() as int) =~= name@);
    let reserved = out.len() == 0 || (out.len() == 1 && out[0] == DOT) || (out.len() == 2
        && out[0] == DOT && out[1] == DOT);
    assert(reserved == is_reserved_segment(out@));
    if reserved {
        let mut r: Vec<u8> = Vec::new();
        r.push(UNDERSCORE);
        let mut j: usize = 0;
        while j < out.len()
            invariant
                j <= out@.len(),
                r@ =~= seq![UNDERSCORE] + out@.subrange(0, j as int),
            decreases out@.len() - j,
        {
            r.push(out[j]);
            j = j + 1;
            assert(r@ =~= seq![UNDERSCORE] + out@.subrange(0, j as int));
        }
        assert(out@.subrange(0, out@.len() as int) =~= out@);
        assert(!is_reserved_segment(r@)) by {
            assert(r@[0] == UNDERSCORE);
        }
        r
    } else {
        out
    }
}

/// The bytes that one byte of a field takes in the property encoding.
pub open spec fn escape_field_byte(b: u8) -> Seq<u8> {
    if b == BACKSLASH {
        seq![BACKSLASH, BACKSLASH]
    } else if b == NEWLINE {
        seq![BACKSLASH, LETTER_N]
    } else if b == EQUALS {
        seq![BACKSLASH, EQUALS]
    } else {
        seq![b]
    }
}

/// A field of the property encoding: backslash, newline and `=` escaped by a backslash.
pub open spec fn escape_field(s: Seq<u8>) -> Seq<u8>
    decreases s.len(),
{
    if s.len() == 0 {
        Seq::empty()
    } else {
        escape_field(s.drop_last()) + escape_field_byte(s.last())
    }
}

/// Appends the escaped form of `s` to `out`.
pub fn push_field(out: &mut Vec<u8>, s: &[u8])
    ensures
        final(out)@ == old(out)@ + escape_field(s@),
{
    let ghost start = out@;
    let mut i: usize = 0;
    while i < s.len()
        invariant
            i <= s@.len(),
            out@ == start + escape_field(s@.subrange(0, i as int)),
        decreases s@.len() - i,
    {
        let b = s[i];
        if b == BACKSLASH {
            out.push(BACKSLASH);
            out.push(BACKSLASH);
        } else if b == NEWLINE {
            out.push(BACKSLASH);
            out.push(LETTER_N);
        } else if b == EQUALS {
            out.push(BACKSLASH);
            out.push(EQUALS);
        } else {
            out.push(b);
        }
        proof {
            let t = s@.subrange(0, i + 1);
            assert(t.drop_last() =~= s@.subrange(0, i as int));
            assert(t.last() == b);
        }
        i = i + 1;
        assert(out@ =~= start + escape_field(s@.subrange(0, i as int)));
    }
    assert(s@.subrange(0, s@.len() as int) =~= s@);
}

/// The escaped form of any name may stand as a segment.
pub proof fn lemma_escape_wf(name: Seq<u8>)
    ensures
        wf_segment(escape_segment(name)),
{
    let r = replace_separators(name);
    let e = escape_segment(name);
    if is_reserved_segment(r) {
        assert(e[0] == UNDERSCORE);
        assert forall|i: int| 0 <= i < e.len() implies e[i] != SLASH && e[i] != BACKSLASH by {
            if i > 0 {
                assert(e[i] == r[i - 1]);
            }
        }
    }
}

/// Bytes that are free of separators.
pub open spec fn no_separators(s: Seq<u8>) -> bool {
    forall|i: int| 0 <= i < s.len() ==> s[i] != SLASH && s[i] != BACKSLASH
}

/// A well-formed segment stays well-formed under a suffix free of separators.
pub proof fn lemma_suffixed_segment(seg: Seq<u8>, suffix: Seq<u8>)
    requires
        wf_segment(seg),
        no_separators(suffix),
    ensures
        wf_segment(seg + suffix),
{
    let r = seg + suffix;
    assert forall|i: int| 0 <= i < r.len() implies r[i] != SLASH && r[i] != BACKSLASH by {
        if i >= seg.len() {
            assert(r[i] == suffix[i - seg.len()]);
        }
    }
    if r.len() == 1 {
        assert(r =~= seg);
    } else if r.len() == 2 {
        if seg.len() == 2 {
            assert(r =~= seg);
        } else {
            assert(r[0] == seg[0]);
            assert(!(seg =~= seq![DOT]));
        }
    }
}

} // verus!
