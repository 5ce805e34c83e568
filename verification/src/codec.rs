//! The persistence codec: the registry's full state as one binary blob.
//!
//! The layout is length-prefixed and little-endian throughout: a record
//! count, then each record's five fields (each text field a character count
//! followed by one 32-bit scalar value per character, the priority one
//! 32-bit value), then the blacklist count and its paths. Decoding rejects
//! anything that is not exactly the encoding of a well-formed state, so a
//! decoded registry always satisfies the registry invariant.

use crate::project::{strs_view, Project, ProjectModel};
use crate::state::{
    contains_path, fits_u64, projects_view, wf_project, wf_state, ProjectState, StateModel,
};
use vstd::bytes::*;
use vstd::prelude::*;

verus! {

broadcast use vstd::seq_lib::group_seq_lib_default;

/// Values a `char` may hold: every code point except the surrogate range.
pub open spec fn valid_scalar(v: u32) -> bool {
    v <= 0xD7FF || (0xE000 <= v && v <= 0x10FFFF)
}

/// Each character as a 32-bit little-endian scalar value.
pub open spec fn enc_chars(s: Seq<char>) -> Seq<u8>
    decreases s.len(),
{
    if s.len() == 0 {
        Seq::<u8>::empty()
    } else {
        spec_u32_to_le_bytes(s[0] as u32) + enc_chars(s.drop_first())
    }
}

/// A character count, then the characters.
pub open spec fn enc_str(s: Seq<char>) -> Seq<u8> {
    spec_u64_to_le_bytes(s.len() as u64) + enc_chars(s)
}

/// The five fields of a record, in declaration order.
pub open spec fn enc_project(p: ProjectModel) -> Seq<u8> {
    enc_str(p.name) + enc_str(p.path) + enc_str(p.kind) + enc_str(p.description)
        + spec_u32_to_le_bytes(p.priority as u32)
}

/// Each record in registry order.
pub open spec fn enc_projects(ps: Seq<ProjectModel>) -> Seq<u8>
    decreases ps.len(),
{
    if ps.len() == 0 {
        Seq::<u8>::empty()
    } else {
        enc_project(ps[0]) + enc_projects(ps.drop_first())
    }
}

/// Each blacklisted path in registry order.
pub open spec fn enc_strs(v: Seq<Seq<char>>) -> Seq<u8>
    decreases v.len(),
{
    if v.len() == 0 {
        Seq::<u8>::empty()
    } else {
        enc_str(v[0]) + enc_strs(v.drop_first())
    }
}

/// The whole state: record count, records, blacklist count, paths.
pub open spec fn spec_encode(s: StateModel) -> Seq<u8> {
    spec_u64_to_le_bytes(s.projects.len() as u64) + enc_projects(s.projects)
        + spec_u64_to_le_bytes(s.blacklist.len() as u64) + enc_strs(s.blacklist)
}

/// Eight bytes as a count, and what follows them.
pub open spec fn dec_u64(b: Seq<u8>) -> Option<(u64, Seq<u8>)> {
    if b.len() >= 8 {
        Some((spec_u64_from_le_bytes(b.take(8)), b.skip(8)))
    } else {
        None
    }
}

/// Four bytes as a value, and what follows them.
pub open spec fn dec_u32(b: Seq<u8>) -> Option<(u32, Seq<u8>)> {
    if b.len() >= 4 {
        Some((spec_u32_from_le_bytes(b.take(4)), b.skip(4)))
    } else {
        None
    }
}

/// `n` characters, each a valid scalar value, and what follows them.
pub open spec fn dec_chars(b: Seq<u8>, n: nat) -> Option<(Seq<char>, Seq<u8>)>
    decreases n,
{
    if n == 0 {
        Some((Seq::<char>::empty(), b))
    } else {
        match dec_u32(b) {
            Some(vr) => if valid_scalar(vr.0) {
                match dec_chars(vr.1, (n - 1) as nat) {
                    Some(sr) => Some((seq![vr.0 as char] + sr.0, sr.1)),
                    None => None,
                }
            } else {
                None
            },
            None => None,
        }
    }
}

/// A counted string, and what follows it.
pub open spec fn dec_str(b: Seq<u8>) -> Option<(Seq<char>, Seq<u8>)> {
    match dec_u64(b) {
        Some(nr) => dec_chars(nr.1, nr.0 as nat),
        None => None,
    }
}

/// One record, and what follows it.
pub open spec fn dec_project(b: Seq<u8>) -> Option<(ProjectModel, Seq<u8>)> {
    match dec_str(b) {
        Some(name_r) => match dec_str(name_r.1) {
            Some(path_r) => match dec_str(path_r.1) {
                Some(kind_r) => match dec_str(kind_r.1) {
                    Some(desc_r) => match dec_u32(desc_r.1) {
                        Some(pr) => if pr.0 <= i32::MAX as u32 {
                            Some(
                                (
                                    ProjectModel {
                                        name: name_r.0,
                                        path: path_r.0,
                                        kind: kind_r.0,
                                        description: desc_r.0,
                                        priority: pr.0 as int,
                                    },
                                    pr.1,
                                ),
                            )
                        } else {
                            None
                        },
                        None => None,
                    },
                    None => None,
                },
                None => None,
            },
            None => None,
        },
        None => None,
    }
}

/// `n` records, and what follows them.
pub open spec fn dec_projects(b: Seq<u8>, n: nat) -> Option<(Seq<ProjectModel>, Seq<u8>)>
    decreases n,
{
    if n == 0 {
        Some((Seq::<ProjectModel>::empty(), b))
    } else {
        match dec_project(b) {
            Some(pr) => match dec_projects(pr.1, (n - 1) as nat) {
                Some(rr) => Some((seq![pr.0] + rr.0, rr.1)),
                None => None,
            },
            None => None,
        }
    }
}

/// `n` counted strings, and what follows them.
pub open spec fn dec_strs(b: Seq<u8>, n: nat) -> Option<(Seq<Seq<char>>, Seq<u8>)>
    decreases n,
{
    if n == 0 {
        Some((Seq::<Seq<char>>::empty(), b))
    } else {
        match dec_str(b) {
            Some(sr) => match dec_strs(sr.1, (n - 1) as nat) {
                Some(rr) => Some((seq![sr.0] + rr.0, rr.1)),
                None => None,
            },
            None => None,
        }
    }
}

/// The state a blob holds: `Some` exactly when the blob is, in full, the
/// encoding of a well-formed state.
pub open spec fn spec_decode(b: Seq<u8>) -> Option<StateModel> {
    match dec_u64(b) {
        Some(np) => match dec_projects(np.1, np.0 as nat) {
            Some(ps) => match dec_u64(ps.1) {
                Some(nb) => match dec_strs(nb.1, nb.0 as nat) {
                    Some(bs) => {
                        let s = StateModel { projects: ps.0, blacklist: bs.0 };
                        if bs.1.len() == 0 && wf_state(s) {
                            Some(s)
                        } else {
                            None
                        }
                    },
                    None => None,
                },
                None => None,
            },
            None => None,
        },
        None => None,
    }
}

/// Relies on std's `String::push`: appends the character to the string.
pub assume_specification[ String::push ](s: &mut String, ch: char)
    ensures
        final(s)@ == old(s)@.push(ch),
;

/// Relies on std's `char::from_u32`: `Some` exactly for the code points a
/// `char` may hold (everything up to 0x10FFFF except the surrogate range),
/// and the returned character casts back to the given value.
pub assume_specification[ char::from_u32 ](v: u32) -> (r: Option<char>)
    ensures
        match r {
            Some(c) => valid_scalar(v) && c as u32 == v,
            None => !valid_scalar(v),
        },
;

proof fn lemma_dec_u64_enc(v: u64, rest: Seq<u8>)
    ensures
        dec_u64(spec_u64_to_le_bytes(v) + rest) == Some((v, rest)),
{
    lemma_auto_spec_u64_to_from_le_bytes();
    let b = spec_u64_to_le_bytes(v) + rest;
    assert(b.take(8) =~= spec_u64_to_le_bytes(v));
    assert(b.skip(8) =~= rest);
}

proof fn lemma_dec_u32_enc(v: u32, rest: Seq<u8>)
    ensures
        dec_u32(spec_u32_to_le_bytes(v) + rest) == Some((v, rest)),
{
    lemma_auto_spec_u32_to_from_le_bytes();
    let b = spec_u32_to_le_bytes(v) + rest;
    assert(b.take(4) =~= spec_u32_to_le_bytes(v));
    assert(b.skip(4) =~= rest);
}

proof fn lemma_dec_chars_enc(s: Seq<char>, rest: Seq<u8>)
    ensures
        dec_chars(enc_chars(s) + rest, s.len()) == Some((s, rest)),
    decreases s.len(),
{
    if s.len() == 0 {
        assert(enc_chars(s) + rest =~= rest);
        assert(Seq::<char>::empty() =~= s);
    } else {
        let c = s[0];
        let tail = s.drop_first();
        assert(enc_chars(s) + rest =~= spec_u32_to_le_bytes(c as u32) + (enc_chars(tail) + rest));
        lemma_dec_u32_enc(c as u32, enc_chars(tail) + rest);
        vstd::utf8::char_is_scalar(c);
        assert(valid_scalar(c as u32));
        lemma_dec_chars_enc(tail, rest);
        vstd::utf8::char_u32_cast(c, c as u32);
        assert((c as u32) as char == c);
        assert(seq![c] + tail =~= s);
    }
}

proof fn lemma_dec_str_enc(s: Seq<char>, rest: Seq<u8>)
    requires
        fits_u64(s.len()),
    ensures
        dec_str(enc_str(s) + rest) == Some((s, rest)),
{
    assert(enc_str(s) + rest =~= spec_u64_to_le_bytes(s.len() as u64) + (enc_chars(s) + rest));
    lemma_dec_u64_enc(s.len() as u64, enc_chars(s) + rest);
    lemma_dec_chars_enc(s, rest);
}

proof fn lemma_dec_project_enc(p: ProjectModel, rest: Seq<u8>)
    requires
        wf_project(p),
    ensures
        dec_project(enc_project(p) + rest) == Some((p, rest)),
{
    let after_name = enc_str(p.path) + (enc_str(p.kind) + (enc_str(p.description) + (
    spec_u32_to_le_bytes(p.priority as u32) + rest)));
    assert(enc_project(p) + rest =~= enc_str(p.name) + after_name);
    lemma_dec_str_enc(p.name, after_name);
    let after_path = enc_str(p.kind) + (enc_str(p.description) + (spec_u32_to_le_bytes(
        p.priority as u32,
    ) + rest));
    assert(after_name =~= enc_str(p.path) + after_path);
    lemma_dec_str_enc(p.path, after_path);
    let after_kind = enc_str(p.description) + (spec_u32_to_le_bytes(p.priority as u32) + rest);
    assert(after_path =~= enc_str(p.kind) + after_kind);
    lemma_dec_str_enc(p.kind, after_kind);
    let after_desc = spec_u32_to_le_bytes(p.priority as u32) + rest;
    assert(after_kind =~= enc_str(p.description) + after_desc);
    lemma_dec_str_enc(p.description, after_desc);
    lemma_dec_u32_enc(p.priority as u32, rest);
    assert((p.priority as u32) as int == p.priority);
}

proof fn lemma_dec_projects_enc(ps: Seq<ProjectModel>, rest: Seq<u8>)
    requires
        forall|i: int| 0 <= i < ps.len() ==> wf_project(#[trigger] ps[i]),
    ensures
        dec_projects(enc_projects(ps) + rest, ps.len()) == Some((ps, rest)),
    decreases ps.len(),
{
    if ps.len() == 0 {
        assert(enc_projects(ps) + rest =~= rest);
        assert(Seq::<ProjectModel>::empty() =~= ps);
    } else {
        let tail = ps.drop_first();
        assert(enc_projects(ps) + rest =~= enc_project(ps[0]) + (enc_projects(tail) + rest));
        lemma_dec_project_enc(ps[0], enc_projects(tail) + rest);
        assert(forall|i: int| 0 <= i < tail.len() ==> wf_project(#[trigger] tail[i]));
        lemma_dec_projects_enc(tail, rest);
        assert(seq![ps[0]] + tail =~= ps);
    }
}

proof fn lemma_dec_strs_enc(v: Seq<Seq<char>>, rest: Seq<u8>)
    requires
        forall|i: int| 0 <= i < v.len() ==> fits_u64(#[trigger] v[i].len()),
    ensures
        dec_strs(enc_strs(v) + rest, v.len()) == Some((v, rest)),
    decreases v.len(),
{
    if v.len() == 0 {
        assert(enc_strs(v) + rest =~= rest);
        assert(Seq::<Seq<char>>::empty() =~= v);
    } else {
        let tail = v.drop_first();
        assert(enc_strs(v) + rest =~= enc_str(v[0]) + (enc_strs(tail) + rest));
        lemma_dec_str_enc(v[0], enc_strs(tail) + rest);
        assert(forall|i: int| 0 <= i < tail.len() ==> fits_u64(#[trigger] tail[i].len()));
        lemma_dec_strs_enc(tail, rest);
        assert(seq![v[0]] + tail =~= v);
    }
}

/// Round-trip law: decoding an encoding gives back exactly the state that
/// was encoded, for every well-formed state.
pub proof fn lemma_encode_decode(s: StateModel)
    requires
        wf_state(s),
    ensures
        spec_decode(spec_encode(s)) == Some(s),
{
    let tail1 = enc_projects(s.projects) + (spec_u64_to_le_bytes(s.blacklist.len() as u64)
        + enc_strs(s.blacklist));
    assert(spec_encode(s) =~= spec_u64_to_le_bytes(s.projects.len() as u64) + tail1);
    lemma_dec_u64_enc(s.projects.len() as u64, tail1);
    let tail2 = spec_u64_to_le_bytes(s.blacklist.len() as u64) + enc_strs(s.blacklist);
    assert(tail1 =~= enc_projects(s.projects) + tail2);
    lemma_dec_projects_enc(s.projects, tail2);
    let tail3 = enc_strs(s.blacklist) + Seq::<u8>::empty();
    assert(tail2 =~= spec_u64_to_le_bytes(s.blacklist.len() as u64) + tail3);
    lemma_dec_u64_enc(s.blacklist.len() as u64, tail3);
    assert(tail3 =~= enc_strs(s.blacklist) + Seq::<u8>::empty());
    lemma_dec_strs_enc(s.blacklist, Seq::<u8>::empty());
    assert(StateModel { projects: s.projects, blacklist: s.blacklist } == s);
}

proof fn lemma_enc_chars_snoc(s: Seq<char>, c: char)
    ensures
        enc_chars(s.push(c)) == enc_chars(s) + spec_u32_to_le_bytes(c as u32),
    decreases s.len(),
{
    let sp = s.push(c);
    if s.len() == 0 {
        assert(sp[0] == c);
        assert(sp.drop_first() =~= Seq::<char>::empty());
        Seq::<u8>::add_empty_right(spec_u32_to_le_bytes(c as u32), enc_chars(sp.drop_first()));
        Seq::<u8>::add_empty_left(enc_chars(s), spec_u32_to_le_bytes(c as u32));
    } else {
        assert(sp[0] == s[0]);
        assert(sp.drop_first() =~= s.drop_first().push(c));
        lemma_enc_chars_snoc(s.drop_first(), c);
        vstd::seq_lib::lemma_concat_associative(
            spec_u32_to_le_bytes(s[0] as u32),
            enc_chars(s.drop_first()),
            spec_u32_to_le_bytes(c as u32),
        );
    }
}

proof fn lemma_enc_projects_snoc(ps: Seq<ProjectModel>, p: ProjectModel)
    ensures
        enc_projects(ps.push(p)) == enc_projects(ps) + enc_project(p),
    decreases ps.len(),
{
    let sp = ps.push(p);
    if ps.len() == 0 {
        assert(sp[0] == p);
        assert(sp.drop_first() =~= Seq::<ProjectModel>::empty());
        Seq::<u8>::add_empty_right(enc_project(p), enc_projects(sp.drop_first()));
        Seq::<u8>::add_empty_left(enc_projects(ps), enc_project(p));
    } else {
        assert(sp[0] == ps[0]);
        assert(sp.drop_first() =~= ps.drop_first().push(p));
        lemma_enc_projects_snoc(ps.drop_first(), p);
        vstd::seq_lib::lemma_concat_associative(
            enc_project(ps[0]),
            enc_projects(ps.drop_first()),
            enc_project(p),
        );
    }
}

proof fn lemma_enc_strs_snoc(v: Seq<Seq<char>>, x: Seq<char>)
    ensures
        enc_strs(v.push(x)) == enc_strs(v) + enc_str(x),
    decreases v.len(),
{
    let sp = v.push(x);
    if v.len() == 0 {
        assert(sp[0] == x);
        assert(sp.drop_first() =~= Seq::<Seq<char>>::empty());
        Seq::<u8>::add_empty_right(enc_str(x), enc_strs(sp.drop_first()));
        Seq::<u8>::add_empty_left(enc_strs(v), enc_str(x));
    } else {
        assert(sp[0] == v[0]);
        assert(sp.drop_first() =~= v.drop_first().push(x));
        lemma_enc_strs_snoc(v.drop_first(), x);
        vstd::seq_lib::lemma_concat_associative(
            enc_str(v[0]),
            enc_strs(v.drop_first()),
            enc_str(x),
        );
    }
}

fn push_bytes(out: &mut Vec<u8>, b: &Vec<u8>)
    ensures
        final(out)@ == old(out)@ + b@,
{
    let n = b.len();
    proof {
        assert(out@ =~= old(out)@ + b@.take(0));
    }
    let mut i: usize = 0;
    while i < n
        invariant
            n == b@.len(),
            0 <= i <= n,
            out@ == old(out)@ + b@.take(i as int),
        decreases n - i,
    {
        out.push(b[i]);
        proof {
            assert(b@.take(i + 1) =~= b@.take(i as int).push(b@[i as int]));
            assert(out@ =~= old(out)@ + b@.take(i + 1));
        }
        i = i + 1;
    }
    proof {
        assert(b@.take(n as int) =~= b@);
    }
}

fn push_u64(out: &mut Vec<u8>, v: u64)
    ensures
        final(out)@ == old(out)@ + spec_u64_to_le_bytes(v),
{
    let b = u64_to_le_bytes(v);
    push_bytes(out, &b);
}

fn push_u32(out: &mut Vec<u8>, v: u32)
    ensures
        final(out)@ == old(out)@ + spec_u32_to_le_bytes(v),
{
    let b = u32_to_le_bytes(v);
    push_bytes(out, &b);
}

fn push_str(out: &mut Vec<u8>, s: &String)
    ensures
        final(out)@ == old(out)@ + enc_str(s@),
{
    let st = s.as_str();
    let n = st.unicode_len();
    push_u64(out, n as u64);
    let ghost base = old(out)@ + spec_u64_to_le_bytes(s@.len() as u64);
    proof {
        assert(enc_chars(s@.take(0)) =~= Seq::<u8>::empty());
        assert(out@ =~= base + enc_chars(s@.take(0)));
    }
    let mut i: usize = 0;
    while i < n
        invariant
            n as nat == s@.len(),
            0 <= i <= n,
            st@ == s@,
            base == old(out)@ + spec_u64_to_le_bytes(s@.len() as u64),
            out@ == base + enc_chars(s@.take(i as int)),
        decreases n - i,
    {
        let c = st.get_char(i);
        push_u32(out, c as u32);
        proof {
            assert(s@.take(i + 1) =~= s@.take(i as int).push(s@[i as int]));
            lemma_enc_chars_snoc(s@.take(i as int), s@[i as int]);
            assert(out@ =~= base + enc_chars(s@.take(i + 1)));
        }
        i = i + 1;
    }
    proof {
        assert(s@.take(n as int) =~= s@);
        assert(out@ =~= old(out)@ + enc_str(s@));
    }
}

fn push_project(out: &mut Vec<u8>, p: &Project)
    requires
        0 <= p@.priority,
    ensures
        final(out)@ == old(out)@ + enc_project(p@),
{
    push_str(out, &p.name);
    push_str(out, &p.path);
    push_str(out, &p.kind);
    push_str(out, &p.description);
    push_u32(out, p.priority as u32);
    proof {
        assert(final(out)@ =~= old(out)@ + enc_project(p@));
    }
}

/// The registry state as one binary blob, laid out as [`spec_encode`] says.
pub fn encode(s: &ProjectState) -> (r: Vec<u8>)
    requires
        s.wf(),
    ensures
        r@ == spec_encode(s@),
{
    let mut out: Vec<u8> = Vec::new();
    let np = s.projects.len();
    push_u64(&mut out, np as u64);
    let ghost part1 = spec_u64_to_le_bytes(s@.projects.len() as u64);
    proof {
        assert(enc_projects(s@.projects.take(0)) =~= Seq::<u8>::empty());
        assert(out@ =~= part1 + enc_projects(s@.projects.take(0)));
    }
    let mut i: usize = 0;
    while i < np
        invariant
            np == s.projects@.len(),
            0 <= i <= np,
            s.wf(),
            part1 == spec_u64_to_le_bytes(s@.projects.len() as u64),
            out@ == part1 + enc_projects(s@.projects.take(i as int)),
        decreases np - i,
    {
        proof {
            assert(s@.projects[i as int] == s.projects@[i as int]@);
            assert(wf_project(s@.projects[i as int]));
        }
        push_project(&mut out, &s.projects[i]);
        proof {
            assert(s@.projects.take(i + 1) =~= s@.projects.take(i as int).push(
                s@.projects[i as int],
            ));
            lemma_enc_projects_snoc(s@.projects.take(i as int), s@.projects[i as int]);
            assert(out@ =~= part1 + enc_projects(s@.projects.take(i + 1)));
        }
        i = i + 1;
    }
    proof {
        assert(s@.projects.take(np as int) =~= s@.projects);
    }
    let ghost part2 = part1 + enc_projects(s@.projects) + spec_u64_to_le_bytes(
        s@.blacklist.len() as u64,
    );
    let nb = s.blacklist.len();
    push_u64(&mut out, nb as u64);
    proof {
        assert(enc_strs(s@.blacklist.take(0)) =~= Seq::<u8>::empty());
        assert(out@ =~= part2 + enc_strs(s@.blacklist.take(0)));
    }
    let mut j: usize = 0;
    while j < nb
        invariant
            nb == s.blacklist@.len(),
            0 <= j <= nb,
            part2 == part1 + enc_projects(s@.projects) + spec_u64_to_le_bytes(
                s@.blacklist.len() as u64,
            ),
            out@ == part2 + enc_strs(s@.blacklist.take(j as int)),
        decreases nb - j,
    {
        proof {
            assert(s@.blacklist[j as int] == s.blacklist@[j as int]@);
        }
        push_str(&mut out, &s.blacklist[j]);
        proof {
            assert(s@.blacklist.take(j + 1) =~= s@.blacklist.take(j as int).push(
                s@.blacklist[j as int],
            ));
            lemma_enc_strs_snoc(s@.blacklist.take(j as int), s@.blacklist[j as int]);
            assert(out@ =~= part2 + enc_strs(s@.blacklist.take(j + 1)));
        }
        j = j + 1;
    }
    proof {
        assert(s@.blacklist.take(nb as int) =~= s@.blacklist);
        assert(out@ =~= spec_encode(s@));
    }
    out
}

fn read_u64(b: &Vec<u8>, i: usize) -> (r: Option<(u64, usize)>)
    requires
        i <= b@.len(),
    ensures
        match r {
            Some(vr) => {
                &&& i <= vr.1 <= b@.len()
                &&& dec_u64(b@.skip(i as int)) == Some((vr.0, b@.skip(vr.1 as int)))
            },
            None => dec_u64(b@.skip(i as int)) is None,
        },
{
    if b.len() - i >= 8 {
        let sl = vstd::slice::slice_subrange(b.as_slice(), i, i + 8);
        let v = u64_from_le_bytes(sl);
        proof {
            assert(sl@ =~= b@.skip(i as int).take(8));
            assert(b@.skip(i as int).skip(8) =~= b@.skip(i as int + 8));
        }
        Some((v, i + 8))
    } else {
        None
    }
}

fn read_u32(b: &Vec<u8>, i: usize) -> (r: Option<(u32, usize)>)
    requires
        i <= b@.len(),
    ensures
        match r {
            Some(vr) => {
                &&& i <= vr.1 <= b@.len()
                &&& dec_u32(b@.skip(i as int)) == Some((vr.0, b@.skip(vr.1 as int)))
            },
            None => dec_u32(b@.skip(i as int)) is None,
        },
{
    if b.len() - i >= 4 {
        let sl = vstd::slice::slice_subrange(b.as_slice(), i, i + 4);
        let v = u32_from_le_bytes(sl);
        proof {
            assert(sl@ =~= b@.skip(i as int).take(4));
            assert(b@.skip(i as int).skip(4) =~= b@.skip(i as int + 4));
        }
        Some((v, i + 4))
    } else {
        None
    }
}

fn read_string(b: &Vec<u8>, i: usize) -> (r: Option<(String, usize)>)
    requires
        i <= b@.len(),
    ensures
        match r {
            Some(sr) => {
                &&& i <= sr.1 <= b@.len()
                &&& dec_str(b@.skip(i as int)) == Some((sr.0@, b@.skip(sr.1 as int)))
                &&& fits_u64(sr.0@.len())
            },
            None => dec_str(b@.skip(i as int)) is None,
        },
{
    let header = read_u64(b, i);
    if header.is_none() {
        return None;
    }
    let (n, j) = header.unwrap();
    let mut s = String::new();
    let mut k: u64 = 0;
    let mut pos: usize = j;
    while k < n
        invariant
            i <= j <= b@.len(),
            k <= n,
            j <= pos <= b@.len(),
            s@.len() == k as nat,
            dec_u64(b@.skip(i as int)) == Some((n, b@.skip(j as int))),
            match dec_chars(b@.skip(pos as int), (n - k) as nat) {
                Some(rr) => dec_chars(b@.skip(j as int), n as nat) == Some((s@ + rr.0, rr.1)),
                None => dec_chars(b@.skip(j as int), n as nat) is None,
            },
        decreases n - k,
    {
        let cur = read_u32(b, pos);
        if cur.is_none() {
            return None;
        }
        let (v, pos2) = cur.unwrap();
        let c_opt = char::from_u32(v);
        if c_opt.is_none() {
            return None;
        }
        let c = c_opt.unwrap();
        let ghost prev = s@;
        s.push(c);
        proof {
            vstd::utf8::char_u32_cast(c, v);
            let rem_now = dec_chars(b@.skip(pos as int), (n - k) as nat);
            let rem_next = dec_chars(b@.skip(pos2 as int), (n - (k + 1)) as nat);
            if rem_next is Some {
                let sr = rem_next->0;
                assert(rem_now == Some((seq![v as char] + sr.0, sr.1)));
                assert(prev + (seq![c] + sr.0) =~= s@ + sr.0);
            }
        }
        pos = pos2;
        k = k + 1;
    }
    proof {
        let rem = dec_chars(b@.skip(pos as int), (n - k) as nat);
        assert(rem == Some((Seq::<char>::empty(), b@.skip(pos as int))));
        assert(s@ + Seq::<char>::empty() =~= s@);
    }
    Some((s, pos))
}

fn read_project(b: &Vec<u8>, i: usize) -> (r: Option<(Project, usize)>)
    requires
        i <= b@.len(),
    ensures
        match r {
            Some(pr) => {
                &&& i <= pr.1 <= b@.len()
                &&& dec_project(b@.skip(i as int)) == Some((pr.0@, b@.skip(pr.1 as int)))
                &&& wf_project(pr.0@)
            },
            None => dec_project(b@.skip(i as int)) is None,
        },
{
    let name_r = read_string(b, i);
    if name_r.is_none() {
        return None;
    }
    let (name, j1) = name_r.unwrap();
    let path_r = read_string(b, j1);
    if path_r.is_none() {
        return None;
    }
    let (path, j2) = path_r.unwrap();
    let kind_r = read_string(b, j2);
    if kind_r.is_none() {
        return None;
    }
    let (kind, j3) = kind_r.unwrap();
    let desc_r = read_string(b, j3);
    if desc_r.is_none() {
        return None;
    }
    let (description, j4) = desc_r.unwrap();
    let prio_r = read_u32(b, j4);
    if prio_r.is_none() {
        return None;
    }
    let (prio_raw, j5) = prio_r.unwrap();
    if prio_raw > 0x7fff_ffff {
        return None;
    }
    let p = Project { name, path, kind, description, priority: prio_raw as i32 };
    Some((p, j5))
}

fn paths_unique(v: &Vec<Project>) -> (r: bool)
    ensures
        r == (forall|a: int, c: int|
            0 <= a < c < projects_view(v@).len() ==> projects_view(v@)[a].path != projects_view(
                v@,
            )[c].path),
{
    let ghost pv = projects_view(v@);
    let n = v.len();
    let mut i: usize = 0;
    while i < n
        invariant
            n == v@.len(),
            0 <= i <= n,
            pv == projects_view(v@),
            forall|a: int, c: int| 0 <= a < c < i ==> pv[a].path != pv[c].path,
        decreases n - i,
    {
        let mut j: usize = 0;
        while j < i
            invariant
                n == v@.len(),
                0 <= j <= i < n,
                pv == projects_view(v@),
                forall|k: int| 0 <= k < j ==> pv[k].path != pv[i as int].path,
            decreases i - j,
        {
            if v[j].path.eq(&v[i].path) {
                proof {
                    assert(pv[j as int].path == pv[i as int].path);
                }
                return false;
            }
            j = j + 1;
        }
        i = i + 1;
    }
    true
}

fn strs_unique(v: &Vec<String>) -> (r: bool)
    ensures
        r == (forall|a: int, c: int|
            0 <= a < c < strs_view(v@).len() ==> strs_view(v@)[a] != strs_view(v@)[c]),
{
    let ghost sv = strs_view(v@);
    let n = v.len();
    let mut i: usize = 0;
    while i < n
        invariant
            n == v@.len(),
            0 <= i <= n,
            sv == strs_view(v@),
            forall|a: int, c: int| 0 <= a < c < i ==> sv[a] != sv[c],
        decreases n - i,
    {
        let mut j: usize = 0;
        while j < i
            invariant
                n == v@.len(),
                0 <= j <= i < n,
                sv == strs_view(v@),
                forall|k: int| 0 <= k < j ==> sv[k] != sv[i as int],
            decreases i - j,
        {
            if v[j].eq(&v[i]) {
                proof {
                    assert(sv[j as int] == sv[i as int]);
                }
                return false;
            }
            j = j + 1;
        }
        i = i + 1;
    }
    true
}

/// The registry state a blob holds, if the blob is, in full, the encoding
/// of a well-formed state; `None` on anything else. A decoded registry
/// satisfies the registry invariant.
pub fn decode(b: &Vec<u8>) -> (r: Option<ProjectState>)
    ensures
        match r {
            Some(st) => st.wf() && spec_decode(b@) == Some(st@),
            None => spec_decode(b@) is None,
        },
{
    proof {
        assert(b@.skip(0) =~= b@);
    }
    let count_r = read_u64(b, 0);
    if count_r.is_none() {
        return None;
    }
    let (np, p1) = count_r.unwrap();
    let mut projects: Vec<Project> = Vec::new();
    let mut k: u64 = 0;
    let mut pos: usize = p1;
    while k < np
        invariant
            k <= np,
            p1 <= b@.len(),
            p1 <= pos <= b@.len(),
            projects@.len() == k as nat,
            forall|t: int|
                0 <= t < projects@.len() ==> wf_project(
                    #[trigger] projects_view(projects@)[t],
                ),
            dec_u64(b@) == Some((np, b@.skip(p1 as int))),
            match dec_projects(b@.skip(pos as int), (np - k) as nat) {
                Some(rr) => dec_projects(b@.skip(p1 as int), np as nat) == Some(
                    (projects_view(projects@) + rr.0, rr.1),
                ),
                None => dec_projects(b@.skip(p1 as int), np as nat) is None,
            },
        decreases np - k,
    {
        let pr = read_project(b, pos);
        if pr.is_none() {
            return None;
        }
        let (p, pos2) = pr.unwrap();
        let ghost prev = projects_view(projects@);
        projects.push(p);
        proof {
            assert(projects_view(projects@) =~= prev.push(p@));
            let rem_next = dec_projects(b@.skip(pos2 as int), (np - (k + 1)) as nat);
            if rem_next is Some {
                let rr = rem_next->0;
                assert(dec_projects(b@.skip(pos as int), (np - k) as nat) == Some(
                    (seq![p@] + rr.0, rr.1),
                ));
                assert(prev + (seq![p@] + rr.0) =~= projects_view(projects@) + rr.0);
            }
        }
        pos = pos2;
        k = k + 1;
    }
    proof {
        assert(dec_projects(b@.skip(pos as int), (np - k) as nat) == Some(
            (Seq::<ProjectModel>::empty(), b@.skip(pos as int)),
        ));
        assert(projects_view(projects@) + Seq::<ProjectModel>::empty() =~= projects_view(
            projects@,
        ));
    }
    let ghost pv = projects_view(projects@);
    let bcount_r = read_u64(b, pos);
    if bcount_r.is_none() {
        return None;
    }
    let (nb, p2) = bcount_r.unwrap();
    proof {
        assert(dec_u64(b@.skip(pos as int)) == Some((nb, b@.skip(p2 as int))));
    }
    let ghost after_projects = b@.skip(pos as int);
    let mut blacklist: Vec<String> = Vec::new();
    let mut k2: u64 = 0;
    let mut pos2: usize = p2;
    while k2 < nb
        invariant
            k2 <= nb,
            p2 <= b@.len(),
            p2 <= pos2 <= b@.len(),
            pos <= b@.len(),
            pv == projects_view(projects@),
            pv.len() == np as nat,
            forall|t: int| 0 <= t < pv.len() ==> wf_project(#[trigger] pv[t]),
            dec_u64(b@) == Some((np, b@.skip(p1 as int))),
            dec_projects(b@.skip(p1 as int), np as nat) == Some((pv, b@.skip(pos as int))),
            dec_u64(b@.skip(pos as int)) == Some((nb, b@.skip(p2 as int))),
            blacklist@.len() == k2 as nat,
            forall|t: int|
                0 <= t < blacklist@.len() ==> fits_u64(#[trigger] strs_view(blacklist@)[t].len()),
            match dec_strs(b@.skip(pos2 as int), (nb - k2) as nat) {
                Some(rr) => dec_strs(b@.skip(p2 as int), nb as nat) == Some(
                    (strs_view(blacklist@) + rr.0, rr.1),
                ),
                None => dec_strs(b@.skip(p2 as int), nb as nat) is None,
            },
        decreases nb - k2,
    {
        let sr = read_string(b, pos2);
        if sr.is_none() {
            return None;
        }
        let (s, npos) = sr.unwrap();
        let ghost prev = strs_view(blacklist@);
        blacklist.push(s);
        proof {
            assert(strs_view(blacklist@) =~= prev.push(blacklist@.last()@));
            let rem_next = dec_strs(b@.skip(npos as int), (nb - (k2 + 1)) as nat);
            if rem_next is Some {
                let rr = rem_next->0;
                assert(dec_strs(b@.skip(pos2 as int), (nb - k2) as nat) == Some(
                    (seq![blacklist@.last()@] + rr.0, rr.1),
                ));
                assert(prev + (seq![blacklist@.last()@] + rr.0) =~= strs_view(blacklist@) + rr.0);
            }
        }
        pos2 = npos;
        k2 = k2 + 1;
    }
    proof {
        assert(dec_strs(b@.skip(pos2 as int), (nb - k2) as nat) == Some(
            (Seq::<Seq<char>>::empty(), b@.skip(pos2 as int)),
        ));
        assert(strs_view(blacklist@) + Seq::<Seq<char>>::empty() =~= strs_view(blacklist@));
    }
    if pos2 != b.len() {
        proof {
            assert(b@.skip(pos2 as int).len() > 0);
        }
        return None;
    }
    if !paths_unique(&projects) {
        return None;
    }
    if !strs_unique(&blacklist) {
        return None;
    }
    let st = ProjectState { projects, blacklist };
    proof {
        assert(b@.skip(pos2 as int).len() == 0);
        assert(wf_state(st@));
    }
    Some(st)
}

} // verus!
