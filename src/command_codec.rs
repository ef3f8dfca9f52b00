//! The wire format of commands: a one-byte variant index, and for an update
//! the compact count of its modifications followed by each of them.

use vstd::prelude::*;

use crate::codec::{
    compact_of, decode_compact, decode_keywords, decode_region, decode_string, encode_compact,
    encode_keywords_to, encode_string, lemma_compact_unique, lemma_occurs_concat,
    lemma_text_unique, lemma_texts_split, lemma_texts_unique, occurs_at, region_index,
    region_to_byte, text_bytes, text_fits, texts_bytes, texts_fit,
};
use crate::record::{Command, CommandModel, Modification, ModificationModel};

verus! {

/// The variant index of a modification.
pub open spec fn modification_tag(m: ModificationModel) -> u8 {
    match m {
        ModificationModel::Name(_) => 0,
        ModificationModel::Socials(_) => 1,
        ModificationModel::Keywords(_) => 2,
        ModificationModel::Region(_) => 3,
    }
}

/// The fields of a modification, after its variant index.
pub open spec fn modification_payload(m: ModificationModel) -> Seq<u8> {
    match m {
        ModificationModel::Name(s) => text_bytes(s),
        ModificationModel::Socials(s) => text_bytes(s),
        ModificationModel::Keywords(k) => texts_bytes(k),
        ModificationModel::Region(r) => seq![region_index(r)],
    }
}

/// A modification: its variant index, then its fields.
pub open spec fn modification_bytes(m: ModificationModel) -> Seq<u8> {
    seq![modification_tag(m)] + modification_payload(m)
}

/// A modification is within what the format can hold.
pub open spec fn modification_fits(m: ModificationModel) -> bool {
    match m {
        ModificationModel::Name(s) => text_fits(s),
        ModificationModel::Socials(s) => text_fits(s),
        ModificationModel::Keywords(k) => texts_fit(k),
        ModificationModel::Region(_) => true,
    }
}

/// The modifications of `ms`, one after the other, with no count in front.
pub open spec fn modifications_body(ms: Seq<ModificationModel>) -> Seq<u8>
    decreases ms.len(),
{
    if ms.len() == 0 {
        Seq::empty()
    } else {
        modifications_body(ms.drop_last()) + modification_bytes(ms.last())
    }
}

/// A sequence of modifications is within what the format can hold.
pub open spec fn modifications_fit(ms: Seq<ModificationModel>) -> bool {
    &&& ms.len() <= u32::MAX
    &&& forall|i: int| 0 <= i < ms.len() ==> modification_fits(#[trigger] ms[i])
}

/// A command is within what the format can hold.
pub open spec fn command_fits(c: CommandModel) -> bool {
    match c {
        CommandModel::Get => true,
        CommandModel::Update(ms) => modifications_fit(ms),
    }
}

/// A command: `0` for `Get`; `1`, the count and the modifications for `Update`.
pub open spec fn command_bytes(c: CommandModel) -> Seq<u8> {
    match c {
        CommandModel::Get => seq![0u8],
        CommandModel::Update(ms) => seq![1u8] + compact_of(ms.len() as u32) + modifications_body(ms),
    }
}

/// The modification of each element, in order.
pub open spec fn modifications_of(v: Seq<Modification>) -> Seq<ModificationModel> {
    v.map_values(|x: Modification| x@)
}

proof fn lemma_modification_split(s: Seq<u8>, pos: int, m: ModificationModel)
    ensures
        occurs_at(s, pos, modification_bytes(m)) <==> (occurs_at(s, pos, seq![modification_tag(m)])
            && occurs_at(s, pos + 1, modification_payload(m))),
{
    lemma_occurs_concat(s, pos, seq![modification_tag(m)], modification_payload(m));
}

proof fn lemma_modification_unique(s: Seq<u8>, pos: int, a: ModificationModel, b: ModificationModel)
    requires
        modification_fits(a),
        modification_fits(b),
        occurs_at(s, pos, modification_bytes(a)),
        occurs_at(s, pos, modification_bytes(b)),
    ensures
        a == b,
{
    lemma_modification_split(s, pos, a);
    lemma_modification_split(s, pos, b);
    assert(s.subrange(pos, pos + 1)[0] == modification_tag(a));
    assert(s.subrange(pos, pos + 1)[0] == modification_tag(b));
    match (a, b) {
        (ModificationModel::Name(x), ModificationModel::Name(y)) => {
            lemma_text_unique(s, pos + 1, x, y);
        },
        (ModificationModel::Socials(x), ModificationModel::Socials(y)) => {
            lemma_text_unique(s, pos + 1, x, y);
        },
        (ModificationModel::Keywords(x), ModificationModel::Keywords(y)) => {
            lemma_texts_split(s, pos + 1, x);
            lemma_texts_split(s, pos + 1, y);
            lemma_compact_unique(s, pos + 1, x.len() as u32, y.len() as u32);
            lemma_texts_unique(s, pos + 1 + compact_of(x.len() as u32).len(), x, y);
        },
        (ModificationModel::Region(x), ModificationModel::Region(y)) => {
            assert(s.subrange(pos + 1, pos + 2)[0] == region_index(x));
            assert(s.subrange(pos + 1, pos + 2)[0] == region_index(y));
        },
        _ => {},
    }
}

proof fn lemma_modifications_body_push(ms: Seq<ModificationModel>, m: ModificationModel)
    ensures
        modifications_body(ms.push(m)) == modifications_body(ms) + modification_bytes(m),
{
    assert(ms.push(m).drop_last() =~= ms);
}

proof fn lemma_modifications_prefix(s: Seq<u8>, pos: int, ms: Seq<ModificationModel>, j: int)
    requires
        occurs_at(s, pos, modifications_body(ms)),
        0 <= j <= ms.len(),
    ensures
        occurs_at(s, pos, modifications_body(ms.take(j))),
    decreases ms.len(),
{
    if j == ms.len() {
        assert(ms.take(j) =~= ms);
    } else {
        lemma_occurs_concat(s, pos, modifications_body(ms.drop_last()), modification_bytes(ms.last()));
        lemma_modifications_prefix(s, pos, ms.drop_last(), j);
        assert(ms.drop_last().take(j) =~= ms.take(j));
    }
}

/// Where the `i`-th modification of `ms` stands, given that the ones before it
/// stand at `pos`.
proof fn lemma_modifications_step(s: Seq<u8>, pos: int, ms: Seq<ModificationModel>, i: int)
    requires
        occurs_at(s, pos, modifications_body(ms)),
        0 <= i < ms.len(),
    ensures
        occurs_at(s, pos + modifications_body(ms.take(i)).len(), modification_bytes(ms[i])),
        ms.take(i + 1) == ms.take(i).push(ms[i]),
{
    lemma_modifications_prefix(s, pos, ms, i + 1);
    assert(ms.take(i + 1) =~= ms.take(i).push(ms[i]));
    lemma_modifications_body_push(ms.take(i), ms[i]);
    lemma_occurs_concat(s, pos, modifications_body(ms.take(i)), modification_bytes(ms[i]));
}

fn encode_modification_to(m: &Modification, out: &mut Vec<u8>)
    requires
        modification_fits(m@),
    ensures
        final(out)@ == old(out)@ + modification_bytes(m@),
{
    match m {
        Modification::Name(s) => {
            out.push(0);
            let mut b = encode_string(s);
            out.append(&mut b);
        },
        Modification::Socials(s) => {
            out.push(1);
            let mut b = encode_string(s);
            out.append(&mut b);
        },
        Modification::Keywords(k) => {
            out.push(2);
            encode_keywords_to(k, out);
        },
        Modification::Region(r) => {
            out.push(3);
            out.push(region_to_byte(*r));
        },
    }
    assert(final(out)@ =~= old(out)@ + modification_bytes(m@));
}

/// The wire encoding of a command.
pub fn encode_command(c: &Command) -> (r: Vec<u8>)
    requires
        command_fits(c@),
    ensures
        r@ == command_bytes(c@),
{
    match c {
        Command::Get => vec![0u8],
        Command::Update(ms) => {
            let mut out = vec![1u8];
            let mut head = encode_compact(ms.len() as u32);
            out.append(&mut head);
            let ghost start = out@;
            let ghost all = modifications_of(ms@);
            assert(all == c@->Update_0);
            let mut i: usize = 0;
            while i < ms.len()
                invariant
                    i <= ms@.len(),
                    all == modifications_of(ms@),
                    modifications_fit(all),
                    out@ == start + modifications_body(all.take(i as int)),
                decreases ms@.len() - i,
            {
                assert(modification_fits(all[i as int]));
                encode_modification_to(&ms[i], &mut out);
                proof {
                    assert(all.take(i + 1) =~= all.take(i as int).push(all[i as int]));
                    lemma_modifications_body_push(all.take(i as int), all[i as int]);
                }
                i = i + 1;
            }
            assert(all.take(i as int) =~= all);
            assert(out@ =~= command_bytes(c@));
            out
        },
    }
}

fn decode_modification(input: &[u8], pos: usize) -> (r: Option<(Modification, usize)>)
    requires
        pos <= input@.len(),
    ensures
        match r {
            Some((m, p)) => modification_fits(m@) && occurs_at(
                input@,
                pos as int,
                modification_bytes(m@),
            ) && p == pos + modification_bytes(m@).len(),
            None => forall|m: ModificationModel|
                modification_fits(m) ==> !occurs_at(input@, pos as int, #[trigger] modification_bytes(m)),
        },
{
    if pos >= input.len() {
        return None;
    }
    let tag = input[pos];
    assert(input@.subrange(pos as int, pos + 1) =~= seq![tag]);
    let r = if tag == 0 {
        match decode_string(input, pos + 1) {
            Some((s, rest)) => Some((Modification::Name(s), input.len() - rest)),
            None => None,
        }
    } else if tag == 1 {
        match decode_string(input, pos + 1) {
            Some((s, rest)) => Some((Modification::Socials(s), input.len() - rest)),
            None => None,
        }
    } else if tag == 2 {
        match decode_keywords(input, pos + 1) {
            Some((k, p)) => Some((Modification::Keywords(k), p)),
            None => None,
        }
    } else if tag == 3 {
        match decode_region(input, pos + 1) {
            Some((g, p)) => Some((Modification::Region(g), p)),
            None => None,
        }
    } else {
        None
    };
    proof {
        if r is Some {
            lemma_modification_split(input@, pos as int, r->Some_0.0@);
        } else {
            {
                assert forall|m: ModificationModel|
                    modification_fits(m) implies !occurs_at(
                    input@,
                    pos as int,
                    #[trigger] modification_bytes(m),
                ) by {
                    lemma_modification_split(input@, pos as int, m);
                    if occurs_at(input@, pos as int, modification_bytes(m)) {
                        assert(input@.subrange(pos as int, pos + 1)[0] == modification_tag(m));
                    }
                }
            }
        }
    }
    r
}

/// Reads `n` modifications that start at `pos`, whose count stood before.
fn decode_modifications(input: &[u8], pos: usize, n: u32) -> (r: Option<(Vec<Modification>, usize)>)
    requires
        pos <= input@.len(),
    ensures
        match r {
            Some((ms, p)) => ms@.len() == n && modifications_fit(modifications_of(ms@))
                && occurs_at(input@, pos as int, modifications_body(modifications_of(ms@)))
                && p == pos + modifications_body(modifications_of(ms@)).len(),
            None => forall|ms: Seq<ModificationModel>|
                modifications_fit(ms) && ms.len() == n ==> !occurs_at(
                    input@,
                    pos as int,
                    #[trigger] modifications_body(ms),
                ),
        },
{
    let mut p: usize = pos;
    let mut out: Vec<Modification> = Vec::new();
    let mut i: u32 = 0;
    proof {
        assert(modifications_of(out@) =~= Seq::<ModificationModel>::empty());
        assert(input@.subrange(pos as int, pos as int) =~= Seq::<u8>::empty());
        assert forall|ms: Seq<ModificationModel>| #[trigger] ms.take(0) == modifications_of(out@) by {
            assert(ms.take(0) =~= modifications_of(out@));
        }
    }
    while i < n
        invariant
            pos <= p <= input@.len(),
            i <= n,
            out@.len() == i,
            modifications_fit(modifications_of(out@)),
            occurs_at(input@, pos as int, modifications_body(modifications_of(out@))),
            p == pos + modifications_body(modifications_of(out@)).len(),
            forall|ms: Seq<ModificationModel>|
                modifications_fit(ms) && ms.len() == n && occurs_at(
                    input@,
                    pos as int,
                    modifications_body(ms),
                ) ==> #[trigger] ms.take(i as int) == modifications_of(out@),
        decreases n - i,
    {
        match decode_modification(input, p) {
            Some((m, q)) => {
                proof {
                    let old_out = modifications_of(out@);
                    lemma_modifications_body_push(old_out, m@);
                    lemma_occurs_concat(
                        input@,
                        pos as int,
                        modifications_body(old_out),
                        modification_bytes(m@),
                    );
                    assert forall|ms: Seq<ModificationModel>|
                        modifications_fit(ms) && ms.len() == n && occurs_at(
                            input@,
                            pos as int,
                            modifications_body(ms),
                        ) implies #[trigger] ms.take(i + 1) == old_out.push(m@) by {
                        assert(ms.take(i as int) == old_out);
                        lemma_modifications_step(input@, pos as int, ms, i as int);
                        assert(modification_fits(ms[i as int]));
                        lemma_modification_unique(input@, p as int, m@, ms[i as int]);
                    }
                }
                let ghost before = out@;
                let ghost model = m@;
                out.push(m);
                proof {
                    assert(out@.drop_last() =~= before);
                    assert(modifications_of(out@) =~= modifications_of(before).push(model));
                }
                p = q;
                i = i + 1;
            },
            None => {
                assert forall|ms: Seq<ModificationModel>|
                    modifications_fit(ms) && ms.len() == n implies !occurs_at(
                    input@,
                    pos as int,
                    #[trigger] modifications_body(ms),
                ) by {
                    if occurs_at(input@, pos as int, modifications_body(ms)) {
                        assert(ms.take(i as int) == modifications_of(out@));
                        lemma_modifications_step(input@, pos as int, ms, i as int);
                        assert(modification_fits(ms[i as int]));
                    }
                }
                return None;
            },
        }
    }
    Some((out, p))
}

/// Reads a command from the front of `payload`; bytes after it are not
/// looked at. `None` exactly when no command's encoding stands there.
pub fn decode_command(payload: &[u8]) -> (r: Option<Command>)
    ensures
        match r {
            Some(c) => command_fits(c@) && occurs_at(payload@, 0, command_bytes(c@)),
            None => forall|c: CommandModel|
                command_fits(c) ==> !occurs_at(payload@, 0, #[trigger] command_bytes(c)),
        },
{
    if payload.len() == 0 {
        return None;
    }
    let tag = payload[0];
    assert(payload@.subrange(0, 1) =~= seq![tag]);
    if tag == 0 {
        return Some(Command::Get);
    }
    if tag != 1 {
        assert forall|c: CommandModel|
            command_fits(c) implies !occurs_at(payload@, 0, #[trigger] command_bytes(c)) by {
            if occurs_at(payload@, 0, command_bytes(c)) {
                assert(payload@.subrange(0, command_bytes(c).len() as int)[0] == command_bytes(c)[0]);
            }
        }
        return None;
    }
    proof {
        assert forall|ms: Seq<ModificationModel>|
            #![trigger command_bytes(CommandModel::Update(ms))]
            occurs_at(payload@, 0, command_bytes(CommandModel::Update(ms))) <==> (occurs_at(
                payload@,
                1,
                compact_of(ms.len() as u32),
            ) && occurs_at(
                payload@,
                1 + compact_of(ms.len() as u32).len() as int,
                modifications_body(ms),
            )) by {
            lemma_occurs_concat(
                payload@,
                0,
                seq![1u8] + compact_of(ms.len() as u32),
                modifications_body(ms),
            );
            lemma_occurs_concat(payload@, 0, seq![1u8], compact_of(ms.len() as u32));
        }
        assert forall|c: CommandModel|
            command_fits(c) && occurs_at(payload@, 0, #[trigger] command_bytes(c)) implies c is Update by {
            if c is Get {
                assert(payload@.subrange(0, 1)[0] == 0);
            }
        }
    }
    let (n, rest) = match decode_compact(payload, 1) {
        Some(x) => x,
        None => {
            assert forall|c: CommandModel|
                command_fits(c) implies !occurs_at(payload@, 0, #[trigger] command_bytes(c)) by {
                if occurs_at(payload@, 0, command_bytes(c)) {
                    assert(c is Update);
                    assert(command_bytes(CommandModel::Update(c->Update_0)) == command_bytes(c));
                }
            }
            return None;
        },
    };
    let start = payload.len() - rest;
    match decode_modifications(payload, start, n) {
        Some((ms, _p)) => {
            let c = Command::Update(ms);
            proof {
                assert(c@ == CommandModel::Update(modifications_of(ms@)));
                assert(command_bytes(CommandModel::Update(modifications_of(ms@))) == command_bytes(c@));
            }
            Some(c)
        },
        None => {
            assert forall|c: CommandModel|
                command_fits(c) implies !occurs_at(payload@, 0, #[trigger] command_bytes(c)) by {
                if occurs_at(payload@, 0, command_bytes(c)) {
                    assert(c is Update);
                    let ms = c->Update_0;
                    assert(command_bytes(CommandModel::Update(ms)) == command_bytes(c));
                    lemma_compact_unique(payload@, 1, n, ms.len() as u32);
                }
            }
            None
        },
    }
}

proof fn lemma_modifications_unique(
    s: Seq<u8>,
    pos: int,
    a: Seq<ModificationModel>,
    b: Seq<ModificationModel>,
)
    requires
        modifications_fit(a),
        modifications_fit(b),
        a.len() == b.len(),
        occurs_at(s, pos, modifications_body(a)),
        occurs_at(s, pos, modifications_body(b)),
    ensures
        a == b,
    decreases a.len(),
{
    if a.len() > 0 {
        lemma_occurs_concat(s, pos, modifications_body(a.drop_last()), modification_bytes(a.last()));
        lemma_occurs_concat(s, pos, modifications_body(b.drop_last()), modification_bytes(b.last()));
        lemma_modifications_unique(s, pos, a.drop_last(), b.drop_last());
        assert(modification_fits(a[a.len() - 1]));
        assert(modification_fits(b[b.len() - 1]));
        lemma_modification_unique(
            s,
            pos + modifications_body(a.drop_last()).len(),
            a.last(),
            b.last(),
        );
        assert(a =~= a.drop_last().push(a.last()));
        assert(b =~= b.drop_last().push(b.last()));
    } else {
        assert(a =~= b);
    }
}

/// A payload starts with the encoding of one command at most: what is read
/// from its front is determined by its bytes.
pub proof fn command_unique(s: Seq<u8>, a: CommandModel, b: CommandModel)
    requires
        command_fits(a),
        command_fits(b),
        occurs_at(s, 0, command_bytes(a)),
        occurs_at(s, 0, command_bytes(b)),
    ensures
        a == b,
{
    assert(s.subrange(0, command_bytes(a).len() as int)[0] == command_bytes(a)[0]);
    assert(s.subrange(0, command_bytes(b).len() as int)[0] == command_bytes(b)[0]);
    match (a, b) {
        (CommandModel::Update(x), CommandModel::Update(y)) => {
            lemma_occurs_concat(s, 0, seq![1u8] + compact_of(x.len() as u32), modifications_body(x));
            lemma_occurs_concat(s, 0, seq![1u8], compact_of(x.len() as u32));
            lemma_occurs_concat(s, 0, seq![1u8] + compact_of(y.len() as u32), modifications_body(y));
            lemma_occurs_concat(s, 0, seq![1u8], compact_of(y.len() as u32));
            lemma_compact_unique(s, 1, x.len() as u32, y.len() as u32);
            lemma_modifications_unique(s, 1 + compact_of(x.len() as u32).len() as int, x, y);
        },
        _ => {},
    }
}

} // verus!
