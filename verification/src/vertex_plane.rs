//! Planes of the vertex codec: the bytes at one place of the records of a
//! block, as a header of two bits for each group and the groups behind it.

use vstd::prelude::*;
use crate::vertex_group::{
    best_code, escapes, fixed_size, group_bytes, group_field, group_size, group_values,
    lemma_escapes_bounds, lemma_group_bytes_len, lemma_group_round_trip, lemma_group_size_bounds,
    measure_group, read_group, write_group,
};

verus! {

/// The code at place `slot` of a header byte; place 0 is the lowest.
pub open spec fn crumb(byte: int, slot: int) -> int {
    if slot == 0 {
        byte % 4
    } else if slot == 1 {
        (byte / 4) % 4
    } else if slot == 2 {
        (byte / 16) % 4
    } else {
        byte / 64
    }
}

/// How many header bytes a plane of `groups` groups has.
pub open spec fn header_size(groups: int) -> int {
    (groups + 3) / 4
}

/// The code of the `g`-th group of the plane whose header starts at `hp`.
pub open spec fn group_code(s: Seq<u8>, hp: int, g: int) -> int {
    crumb(s[hp + g / 4] as int, g % 4)
}

/// Where the `g`-th group starts, in the plane of `groups` groups whose
/// header starts at `hp`.
pub open spec fn group_pos(s: Seq<u8>, hp: int, groups: int, g: int) -> int
    decreases g,
{
    if g <= 0 {
        hp + header_size(groups)
    } else {
        group_pos(s, hp, groups, g - 1) + group_size(
            group_code(s, hp, g - 1),
            s,
            group_pos(s, hp, groups, g - 1),
        )
    }
}

/// Where the plane of `groups` groups ends whose header starts at `hp`.
pub open spec fn plane_end(s: Seq<u8>, hp: int, groups: int) -> int {
    group_pos(s, hp, groups, groups)
}

/// The bytes of the first `g` groups of the plane whose header starts at `hp`.
pub open spec fn plane_values(s: Seq<u8>, hp: int, groups: int, g: int) -> Seq<u8>
    decreases g,
{
    if g <= 0 {
        Seq::<u8>::empty()
    } else {
        plane_values(s, hp, groups, g - 1) + group_values(
            group_code(s, hp, g - 1),
            s,
            group_pos(s, hp, groups, g - 1),
        )
    }
}

/// The `g`-th group of sixteen of the bytes `d`.
pub open spec fn group_of(d: Seq<u8>, g: int) -> Seq<u8> {
    d.subrange(16 * g, 16 * g + 16)
}

/// The code that the writer picks for the `g`-th group of `d`; 0 behind the
/// last group.
pub open spec fn code_of(d: Seq<u8>, g: int) -> int {
    if 16 * g + 16 <= d.len() {
        best_code(group_of(d, g))
    } else {
        0
    }
}

/// The `h`-th header byte of the plane of `d`: the codes of four groups.
pub open spec fn header_byte(d: Seq<u8>, h: int) -> u8 {
    (code_of(d, 4 * h) + 4 * code_of(d, 4 * h + 1) + 16 * code_of(d, 4 * h + 2) + 64 * code_of(
        d,
        4 * h + 3,
    )) as u8
}

/// The header of the plane of `d`.
pub open spec fn header_bytes(d: Seq<u8>) -> Seq<u8> {
    Seq::new(header_size(d.len() as int / 16) as nat, |h: int| header_byte(d, h))
}

/// What the writer makes of the first `g` groups of `d`.
pub open spec fn body_bytes(d: Seq<u8>, g: int) -> Seq<u8>
    decreases g,
{
    if g <= 0 {
        Seq::<u8>::empty()
    } else {
        body_bytes(d, g - 1) + group_bytes(code_of(d, g - 1), group_of(d, g - 1))
    }
}

/// What the writer makes of the plane `d`, whose length is a multiple of 16.
pub open spec fn plane_bytes(d: Seq<u8>) -> Seq<u8> {
    header_bytes(d) + body_bytes(d, d.len() as int / 16)
}

/// Four codes, packed and taken apart again.
pub proof fn lemma_crumbs(a: int, b: int, c: int, d: int)
    requires
        0 <= a <= 3,
        0 <= b <= 3,
        0 <= c <= 3,
        0 <= d <= 3,
    ensures
        0 <= a + 4 * b + 16 * c + 64 * d <= 255,
        crumb(a + 4 * b + 16 * c + 64 * d, 0) == a,
        crumb(a + 4 * b + 16 * c + 64 * d, 1) == b,
        crumb(a + 4 * b + 16 * c + 64 * d, 2) == c,
        crumb(a + 4 * b + 16 * c + 64 * d, 3) == d,
{
}

/// Every code is from 0 to 3.
pub proof fn lemma_code_of(d: Seq<u8>, g: int)
    requires
        0 <= g,
    ensures
        0 <= code_of(d, g) <= 3,
{
    if 16 * g + 16 <= d.len() {
        lemma_group_bytes_len(group_of(d, g));
    }
}

/// A code that a reader takes from any header byte is from 0 to 3.
pub proof fn lemma_group_code_bounds(s: Seq<u8>, hp: int, g: int)
    ensures
        0 <= group_code(s, hp, g) <= 3,
{
}

/// The first `g` groups take at most sixteen bytes each.
pub proof fn lemma_body_len(d: Seq<u8>, g: int)
    requires
        0 <= g,
        16 * g <= d.len(),
    ensures
        body_bytes(d, g).len() <= 16 * g,
    decreases g,
{
    if g > 0 {
        lemma_body_len(d, g - 1);
        lemma_group_bytes_len(group_of(d, g - 1));
    }
}

/// What was written for the first `g` groups stays in front when more groups
/// are written.
pub proof fn lemma_body_prefix(d: Seq<u8>, g: int, h: int)
    requires
        0 <= g <= h,
    ensures
        body_bytes(d, g).len() <= body_bytes(d, h).len(),
        body_bytes(d, h).subrange(0, body_bytes(d, g).len() as int) == body_bytes(d, g),
    decreases h,
{
    if g < h {
        lemma_body_prefix(d, g, h - 1);
        assert(body_bytes(d, h).subrange(0, body_bytes(d, g).len() as int) =~= body_bytes(
            d,
            h - 1,
        ).subrange(0, body_bytes(d, g).len() as int));
    } else {
        assert(body_bytes(d, h).subrange(0, body_bytes(d, g).len() as int) =~= body_bytes(d, g));
    }
}

/// A group starts no earlier than the groups in front of it, and none starts
/// inside the header.
pub proof fn lemma_group_pos_monotone(s: Seq<u8>, hp: int, groups: int, g: int, h: int)
    requires
        0 <= g <= h,
        0 <= groups,
    ensures
        hp <= hp + header_size(groups) <= group_pos(s, hp, groups, g) <= group_pos(
            s,
            hp,
            groups,
            h,
        ),
    decreases h,
{
    if g < h {
        lemma_group_pos_monotone(s, hp, groups, g, h - 1);
        lemma_group_code_bounds(s, hp, h - 1);
        lemma_group_size_bounds(group_code(s, hp, h - 1), s, group_pos(s, hp, groups, h - 1));
    } else if g > 0 {
        lemma_group_pos_monotone(s, hp, groups, g - 1, g - 1);
        lemma_group_code_bounds(s, hp, g - 1);
        lemma_group_size_bounds(group_code(s, hp, g - 1), s, group_pos(s, hp, groups, g - 1));
    }
}

/// The values of the first `g` groups are `16 * g` bytes.
pub proof fn lemma_plane_values_len(s: Seq<u8>, hp: int, groups: int, g: int)
    requires
        0 <= g,
    ensures
        plane_values(s, hp, groups, g).len() == 16 * g,
    decreases g,
{
    if g > 0 {
        lemma_plane_values_len(s, hp, groups, g - 1);
    }
}

/// The reader takes the code of the `g`-th group from the header that the
/// writer made.
pub proof fn lemma_header_round_trip(d: Seq<u8>, s: Seq<u8>, hp: int, g: int)
    requires
        d.len() % 16 == 0,
        0 <= g < d.len() / 16,
        0 <= hp,
        hp + header_bytes(d).len() <= s.len(),
        s.subrange(hp, hp + header_bytes(d).len()) == header_bytes(d),
    ensures
        group_code(s, hp, g) == best_code(group_of(d, g)),
{
    let h = g / 4;
    let w = s.subrange(hp, hp + header_bytes(d).len());
    assert(w[h] == header_bytes(d)[h]);
    assert(s[hp + h] == header_byte(d, h));
    lemma_code_of(d, 4 * h);
    lemma_code_of(d, 4 * h + 1);
    lemma_code_of(d, 4 * h + 2);
    lemma_code_of(d, 4 * h + 3);
    lemma_crumbs(
        code_of(d, 4 * h),
        code_of(d, 4 * h + 1),
        code_of(d, 4 * h + 2),
        code_of(d, 4 * h + 3),
    );
    assert(g == 4 * h + g % 4);
}

/// A reader of the plane that the writer made of `d` stands, before the
/// `g`-th group, behind what the writer made of the groups in front, and has
/// found their bytes.
pub proof fn lemma_plane_follows(d: Seq<u8>, s: Seq<u8>, hp: int, g: int)
    requires
        d.len() % 16 == 0,
        0 <= g <= d.len() / 16,
        0 <= hp,
        hp + plane_bytes(d).len() <= s.len(),
        s.subrange(hp, hp + plane_bytes(d).len()) == plane_bytes(d),
    ensures
        group_pos(s, hp, d.len() as int / 16, g) == hp + header_bytes(d).len() + body_bytes(
            d,
            g,
        ).len(),
        plane_values(s, hp, d.len() as int / 16, g) == d.subrange(0, 16 * g),
    decreases g,
{
    let groups = d.len() as int / 16;
    let head = header_bytes(d);
    let body = body_bytes(d, groups);
    let w = s.subrange(hp, hp + plane_bytes(d).len());
    if g > 0 {
        let k = g - 1;
        lemma_plane_follows(d, s, hp, k);
        assert(s.subrange(hp, hp + head.len()) =~= head) by {
            assert forall|x: int| 0 <= x < head.len() implies s[hp + x] == head[x] by {
                assert(w[x] == plane_bytes(d)[x]);
            }
        }
        lemma_header_round_trip(d, s, hp, k);
        let v = group_of(d, k);
        let code = best_code(v);
        let pos = hp + head.len() + body_bytes(d, k).len();
        let gb = group_bytes(code, v);
        lemma_body_prefix(d, g, groups);
        assert(body_bytes(d, g) == body_bytes(d, k) + gb);
        assert(s.subrange(pos, pos + gb.len()) =~= gb) by {
            assert forall|x: int| 0 <= x < gb.len() implies s[pos + x] == gb[x] by {
                let y = body_bytes(d, k).len() + x;
                assert(w[head.len() + y] == plane_bytes(d)[head.len() + y]);
                assert(body.subrange(0, body_bytes(d, g).len() as int)[y] == body_bytes(d, g)[y]);
            }
        }
        lemma_group_round_trip(v, s, pos);
        assert(plane_values(s, hp, groups, g) =~= d.subrange(0, 16 * g));
    } else {
        assert(plane_values(s, hp, groups, g) =~= d.subrange(0, 16 * g));
    }
}

/// A plane is read back as written.
pub proof fn lemma_plane_round_trip(d: Seq<u8>, s: Seq<u8>, hp: int)
    requires
        d.len() % 16 == 0,
        0 <= hp,
        hp + plane_bytes(d).len() <= s.len(),
        s.subrange(hp, hp + plane_bytes(d).len()) == plane_bytes(d),
    ensures
        plane_end(s, hp, d.len() as int / 16) == hp + plane_bytes(d).len(),
        plane_values(s, hp, d.len() as int / 16, d.len() as int / 16) == d,
{
    lemma_plane_follows(d, s, hp, d.len() as int / 16);
    assert(d.subrange(0, d.len() as int) =~= d);
}

/// The plane of `d` takes no more than its header and sixteen bytes for each
/// group.
pub proof fn lemma_plane_bytes_len(d: Seq<u8>)
    requires
        d.len() % 16 == 0,
    ensures
        plane_bytes(d).len() <= header_size(d.len() as int / 16) + d.len(),
{
    lemma_body_len(d, d.len() as int / 16);
}

/// Two streams that hold the same bytes in front of `m` count the same
/// escapes in a group whose fields lie in front of `m`.
pub proof fn lemma_escapes_agree(code: int, a: Seq<u8>, b: Seq<u8>, pos: int, i: int, m: int)
    requires
        0 <= pos,
        pos + 8 <= m,
        m <= a.len(),
        m <= b.len(),
        0 <= i <= 16,
        forall|x: int| 0 <= x < m ==> a[x] == b[x],
    ensures
        escapes(code, a, pos, i) == escapes(code, b, pos, i),
    decreases i,
{
    if i > 0 {
        lemma_escapes_agree(code, a, b, pos, i - 1, m);
        assert(a[pos + (i - 1) / 4] == b[pos + (i - 1) / 4]);
        assert(a[pos + (i - 1) / 2] == b[pos + (i - 1) / 2]);
    }
}

/// Two streams that hold the same bytes in front of `m` place the groups of a
/// plane alike, as far as one of them ends the plane twenty-four bytes or
/// more before `m`.
pub proof fn lemma_group_pos_agrees(
    a: Seq<u8>,
    b: Seq<u8>,
    hp: int,
    groups: int,
    g: int,
    m: int,
)
    requires
        0 <= hp,
        0 <= g <= groups,
        m <= a.len(),
        m <= b.len(),
        forall|x: int| 0 <= x < m ==> a[x] == b[x],
        group_pos(a, hp, groups, g) <= m - 24,
    ensures
        group_pos(a, hp, groups, g) == group_pos(b, hp, groups, g),
    decreases g,
{
    if g > 0 {
        let k = g - 1;
        lemma_group_pos_monotone(a, hp, groups, k, g);
        lemma_group_pos_agrees(a, b, hp, groups, k, m);
        let pos = group_pos(a, hp, groups, k);
        assert(hp + k / 4 < hp + header_size(groups));
        assert(a[hp + k / 4] == b[hp + k / 4]);
        lemma_escapes_agree(group_code(a, hp, k), a, b, pos, 16, m);
    }
}

/// Appends to `out` what the writer makes of the plane `d`.
pub fn write_plane(d: &[u8], out: &mut Vec<u8>)
    requires
        d.len() % 16 == 0,
        d.len() <= 256,
    ensures
        final(out)@ == old(out)@ + plane_bytes(d@),
{
    let groups: usize = d.len() / 16;
    let mut codes: Vec<u8> = Vec::new();
    let mut g: usize = 0;
    while g < groups
        invariant
            g <= groups,
            groups == d.len() / 16,
            d.len() % 16 == 0,
            codes@.len() == g,
            forall|k: int| 0 <= k < g ==> codes@[k] == code_of(d@, k),
        decreases groups - g,
    {
        codes.push(measure_group(d, 16 * g));
        g = g + 1;
    }
    // one group behind the last four have the code 0
    codes.push(0);
    codes.push(0);
    codes.push(0);
    assert(forall|k: int| 0 <= k < groups + 3 ==> codes@[k] == code_of(d@, k));
    let header: usize = (groups + 3) / 4;
    let mut h: usize = 0;
    while h < header
        invariant
            h <= header,
            header == (groups + 3) / 4,
            groups == d.len() / 16,
            codes@.len() == groups + 3,
            forall|k: int| 0 <= k < groups + 3 ==> codes@[k] == code_of(d@, k),
            out@ == old(out)@ + header_bytes(d@).take(h as int),
        decreases header - h,
    {
        proof {
            lemma_code_of(d@, 4 * h);
            lemma_code_of(d@, 4 * h + 1);
            lemma_code_of(d@, 4 * h + 2);
            lemma_code_of(d@, 4 * h + 3);
        }
        let byte: u8 = codes[4 * h] + 4 * codes[4 * h + 1] + 16 * codes[4 * h + 2] + 64 * codes[4
            * h + 3];
        out.push(byte);
        assert(out@ =~= old(out)@ + header_bytes(d@).take(h + 1));
        h = h + 1;
    }
    assert(header_bytes(d@).take(header as int) =~= header_bytes(d@));
    let mut g: usize = 0;
    while g < groups
        invariant
            g <= groups,
            groups == d.len() / 16,
            d.len() % 16 == 0,
            codes@.len() == groups + 3,
            forall|k: int| 0 <= k < groups + 3 ==> codes@[k] == code_of(d@, k),
            out@ == old(out)@ + header_bytes(d@) + body_bytes(d@, g as int),
        decreases groups - g,
    {
        proof {
            lemma_code_of(d@, g as int);
        }
        write_group(d, 16 * g, codes[g], out);
        assert(out@ =~= old(out)@ + header_bytes(d@) + body_bytes(d@, g + 1));
        g = g + 1;
    }
    assert(out@ =~= old(out)@ + plane_bytes(d@));
}

/// Reads the plane of `groups` groups whose header starts at `hp` and appends
/// its bytes to `values`; returns the position behind the plane, or nothing
/// where the stream ends less than twenty-four bytes behind the start of a
/// group, or inside the header.
pub fn read_plane(s: &[u8], hp: usize, groups: usize, values: &mut Vec<u8>) -> (r: Option<usize>)
    requires
        groups <= 16,
        hp <= s.len(),
    ensures
        match r {
            Some(end) => {
                &&& end == plane_end(s@, hp as int, groups as int)
                &&& end <= s.len()
                &&& final(values)@ == old(values)@ + plane_values(
                    s@,
                    hp as int,
                    groups as int,
                    groups as int,
                )
            },
            None => plane_end(s@, hp as int, groups as int) > s.len() - 24,
        },
{
    let header: usize = (groups + 3) / 4;
    proof {
        lemma_group_pos_monotone(s@, hp as int, groups as int, 0, groups as int);
    }
    if s.len() - hp < header {
        return None;
    }
    let mut pos: usize = hp + header;
    let mut g: usize = 0;
    while g < groups
        invariant
            g <= groups,
            groups <= 16,
            hp + (groups + 3) / 4 <= s.len(),
            pos <= s.len(),
            pos == group_pos(s@, hp as int, groups as int, g as int),
            values@ == old(values)@ + plane_values(s@, hp as int, groups as int, g as int),
        decreases groups - g,
    {
        if s.len() - pos < 24 {
            proof {
                lemma_group_pos_monotone(s@, hp as int, groups as int, g as int, groups as int);
            }
            return None;
        }
        let byte: u8 = s[hp + g / 4];
        let slot: usize = g % 4;
        let code: u8 = if slot == 0 {
            byte % 4
        } else if slot == 1 {
            (byte / 4) % 4
        } else if slot == 2 {
            (byte / 16) % 4
        } else {
            byte / 64
        };
        assert(code == group_code(s@, hp as int, g as int));
        proof {
            lemma_group_size_bounds(code as int, s@, pos as int);
        }
        pos = read_group(code, s, pos, values);
        assert(values@ =~= old(values)@ + plane_values(s@, hp as int, groups as int, g + 1));
        g = g + 1;
    }
    Some(pos)
}

} // verus!
