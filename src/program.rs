//! The identity program: its state, set up once by the creator's message,
//! and the handler that reads a command and reads or updates the record.

use vstd::prelude::*;
use vstd::utf8::is_ascii_chars_encode_utf8;

use crate::codec::{encode_identity, identity_bytes, identity_fits, occurs_at, texts_fit};
use crate::command_codec::{
    command_bytes, command_fits, decode_command, modification_fits, modifications_fit,
    modifications_of,
};
use crate::hex_text::lemma_hex_of;
use crate::record::{
    initial_record, modified, modified_all, Command, CommandModel, IdentityData, IdentityModel,
    ModificationModel,
};

verus! {

/// Why a message could not be handled.
#[derive(Clone, Copy, Debug, PartialEq, Eq, Structural)]
pub enum HandleError {
    /// The payload does not start with the encoding of a command.
    Decode,
}

/// The record after a command, and the reply that the command gives.
pub open spec fn outcome(d: IdentityModel, c: CommandModel) -> (IdentityModel, Option<Seq<u8>>) {
    match c {
        CommandModel::Get => (d, Some(identity_bytes(d))),
        CommandModel::Update(ms) => (modified_all(d, ms), None),
    }
}

/// The state of an identity program: the account that created it and its
/// record.
#[derive(Debug)]
pub struct IdentityProgram {
    /// The account that created the program.
    pub owner: [u8; 32],
    /// The identity record.
    pub data: IdentityData,
}

impl IdentityProgram {
    /// The record can be encoded whole.
    pub open spec fn wf(&self) -> bool {
        identity_fits(self.data@)
    }

    /// Sets the program up for the account `source`, in the program at
    /// address `program_id`.
    pub fn init(source: &[u8; 32], program_id: &[u8; 32]) -> (r: Self)
        ensures
            r.wf(),
            r.owner == *source,
            r.data@ == initial_record(source@, program_id@),
    {
        let data = IdentityData::new(source, program_id);
        proof {
            let d = data@;
            lemma_hex_of(source@);
            lemma_hex_of(program_id@);
            assert(vstd::utf8::is_ascii_chars(d.name));
            assert(vstd::utf8::is_ascii_chars(d.socials));
            is_ascii_chars_encode_utf8(d.name);
            is_ascii_chars_encode_utf8(d.socials);
            assert(texts_fit(d.keywords));
        }
        IdentityProgram { owner: *source, data }
    }

    /// Carries out a command: `Get` leaves the record as it is and returns its
    /// encoding; `Update` applies the modifications in order and returns
    /// nothing.
    pub fn execute(&mut self, command: Command) -> (r: Option<Vec<u8>>)
        requires
            old(self).wf(),
            command_fits(command@),
        ensures
            final(self).wf(),
            final(self).owner == old(self).owner,
            final(self).data@ == outcome(old(self).data@, command@).0,
            match r {
                Some(b) => outcome(old(self).data@, command@).1 == Some(b@),
                None => outcome(old(self).data@, command@).1 is None,
            },
    {
        match command {
            Command::Get => Some(encode_identity(&self.data)),
            Command::Update(mut modifications) => {
                let ghost all = modifications_of(modifications@);
                let ghost start = self.data@;
                let ghost n = modifications@.len();
                let mut i: usize = 0;
                while modifications.len() > 0
                    invariant
                        identity_fits(self.data@),
                        self.owner == old(self).owner,
                        modifications_fit(all),
                        i + modifications@.len() == n,
                        n == all.len(),
                        modifications_of(modifications@) == all.subrange(i as int, n as int),
                        self.data@ == modified_all(start, all.take(i as int)),
                    decreases modifications@.len(),
                {
                    let ghost before = modifications@;
                    let m = modifications.remove(0);
                    proof {
                        assert(modifications_of(before)[0] == m@);
                        assert(modifications@ =~= before.subrange(1, before.len() as int));
                        assert forall|j: int|
                            0 <= j < modifications@.len() implies modifications_of(
                            modifications@,
                        )[j] == all.subrange(i + 1, n as int)[j] by {
                            assert(modifications_of(before)[j + 1] == all.subrange(
                                i as int,
                                n as int,
                            )[j + 1]);
                        }
                        assert(modifications_of(modifications@) =~= all.subrange(i + 1, n as int));
                        assert(all.take(i + 1).drop_last() =~= all.take(i as int));
                        assert(modification_fits(all[i as int]));
                        lemma_modified_fits(self.data@, m@);
                    }
                    m.apply(&mut self.data);
                    i = i + 1;
                }
                assert(all.take(i as int) =~= all);
                None
            },
        }
    }

    /// Handles one message: reads the command at the front of `payload`
    /// (bytes after it are not looked at) and carries it out. A payload
    /// with no command's encoding in front is refused and changes nothing.
    /// At most one command's encoding stands in front (`command_unique`), so
    /// the outcome is determined by the payload.
    pub fn handle(&mut self, payload: &[u8]) -> (r: Result<Option<Vec<u8>>, HandleError>)
        requires
            old(self).wf(),
        ensures
            final(self).wf(),
            final(self).owner == old(self).owner,
            match r {
                Ok(reply) => exists|c: CommandModel|
                    #![trigger command_bytes(c)]
                    {
                        &&& command_fits(c)
                        &&& occurs_at(payload@, 0, command_bytes(c))
                        &&& final(self).data@ == outcome(old(self).data@, c).0
                        &&& outcome(old(self).data@, c).1 == match reply {
                            Some(b) => Some(b@),
                            None => None,
                        }
                    },
                Err(e) => {
                    &&& e == HandleError::Decode
                    &&& final(self).data@ == old(self).data@
                    &&& forall|c: CommandModel|
                        command_fits(c) ==> !occurs_at(payload@, 0, #[trigger] command_bytes(c))
                },
            },
    {
        match decode_command(payload) {
            Some(command) => Ok(self.execute(command)),
            None => Err(HandleError::Decode),
        }
    }
}

/// A modification that fits keeps a record that fits.
proof fn lemma_modified_fits(d: IdentityModel, m: ModificationModel)
    requires
        identity_fits(d),
        modification_fits(m),
    ensures
        identity_fits(modified(d, m)),
{
}

/// Reading the record changes nothing: a second `Get` right after a first
/// returns the same snapshot and leaves the same record.
pub proof fn get_is_repeatable(d: IdentityModel)
    ensures
        outcome(d, CommandModel::Get).0 == d,
        outcome(outcome(d, CommandModel::Get).0, CommandModel::Get) == outcome(d, CommandModel::Get),
{
}

} // verus!
