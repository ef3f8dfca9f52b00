use vstd::prelude::*;
use vstd::string::StringExecFns;

use crate::hex_text::{encode_hex, hex_of};

verus! {

/// Target region of an identity.
#[derive(Clone, Copy, Debug, PartialEq, Eq, Structural)]
pub enum Region {
    /// Unspecified region.
    Earth,
    /// Europe.
    Europe,
    /// Latin America.
    LatAm,
}

/// The identity record.
#[derive(Debug)]
pub struct IdentityData {
    /// Name or nickname.
    pub name: String,
    /// Socials link or any additional data.
    pub socials: String,
    /// Keywords of interests.
    pub keywords: Vec<String>,
    /// Target region.
    pub region: Region,
}

/// What an identity record holds, as mathematical values.
pub struct IdentityModel {
    pub name: Seq<char>,
    pub socials: Seq<char>,
    pub keywords: Seq<Seq<char>>,
    pub region: Region,
}

/// The text of each keyword, in order.
pub open spec fn texts_of(v: Seq<String>) -> Seq<Seq<char>> {
    v.map_values(|s: String| s@)
}

impl View for IdentityData {
    type V = IdentityModel;

    open spec fn view(&self) -> IdentityModel {
        IdentityModel {
            name: self.name@,
            socials: self.socials@,
            keywords: texts_of(self.keywords@),
            region: self.region,
        }
    }
}

/// A field-level replacement of an identity record.
#[derive(Debug)]
pub enum Modification {
    /// Name.
    Name(String),
    /// Socials link or any other web2 resource.
    Socials(String),
    /// Keywords/tags of interests.
    Keywords(Vec<String>),
    /// Region the identity is living in.
    Region(Region),
}

/// A modification as mathematical values.
pub enum ModificationModel {
    Name(Seq<char>),
    Socials(Seq<char>),
    Keywords(Seq<Seq<char>>),
    Region(Region),
}

impl View for Modification {
    type V = ModificationModel;

    open spec fn view(&self) -> ModificationModel {
        match self {
            Modification::Name(s) => ModificationModel::Name(s@),
            Modification::Socials(s) => ModificationModel::Socials(s@),
            Modification::Keywords(k) => ModificationModel::Keywords(texts_of(k@)),
            Modification::Region(r) => ModificationModel::Region(*r),
        }
    }
}

/// A command handed to the identity program.
#[derive(Debug)]
pub enum Command {
    /// Returns the whole identity record.
    Get,
    /// Applies the given modifications to the record, in order.
    Update(Vec<Modification>),
}

/// A command as mathematical values.
pub enum CommandModel {
    Get,
    Update(Seq<ModificationModel>),
}

impl View for Command {
    type V = CommandModel;

    open spec fn view(&self) -> CommandModel {
        match self {
            Command::Get => CommandModel::Get,
            Command::Update(m) => CommandModel::Update(m@.map_values(|x: Modification| x@)),
        }
    }
}

/// The record after replacing the one field that `m` names.
pub open spec fn modified(d: IdentityModel, m: ModificationModel) -> IdentityModel {
    match m {
        ModificationModel::Name(s) => IdentityModel { name: s, ..d },
        ModificationModel::Socials(s) => IdentityModel { socials: s, ..d },
        ModificationModel::Keywords(k) => IdentityModel { keywords: k, ..d },
        ModificationModel::Region(r) => IdentityModel { region: r, ..d },
    }
}

/// The record after applying every modification of `ms`, first to last.
pub open spec fn modified_all(d: IdentityModel, ms: Seq<ModificationModel>) -> IdentityModel
    decreases ms.len(),
{
    if ms.len() == 0 {
        d
    } else {
        modified(modified_all(d, ms.drop_last()), ms.last())
    }
}

/// The record that an identity starts with: the creator's id and the
/// program's own address, each in hexadecimal behind `0x`.
pub open spec fn initial_record(user: Seq<u8>, program: Seq<u8>) -> IdentityModel {
    IdentityModel {
        name: seq!['0', 'x'] + hex_of(user),
        socials: seq!['v', 'a', 'r', 'a', '.', 'g', 'o', '/', '0', 'x'] + hex_of(program),
        keywords: Seq::empty(),
        region: Region::Earth,
    }
}

impl IdentityData {
    /// An empty record: no name, no socials, no keywords, region `Earth`.
    pub fn dummy() -> (r: Self)
        ensures
            r@.name.len() == 0,
            r@.socials.len() == 0,
            r@.keywords.len() == 0,
            r@.region == Region::Earth,
    {
        IdentityData {
            name: String::new(),
            socials: String::new(),
            keywords: Vec::new(),
            region: Region::Earth,
        }
    }

    /// The record of an identity created by `user` in the program at
    /// address `program`.
    pub fn new(user: &[u8; 32], program: &[u8; 32]) -> (r: Self)
        ensures
            r@ == initial_record(user@, program@),
    {
        proof {
            reveal_strlit("0x");
            reveal_strlit("vara.go/0x");
        }
        let mut name = String::from_str("0x");
        name.append(encode_hex(user.as_slice()).as_str());
        let mut socials = String::from_str("vara.go/0x");
        socials.append(encode_hex(program.as_slice()).as_str());
        assert(name@ =~= initial_record(user@, program@).name);
        assert(socials@ =~= initial_record(user@, program@).socials);
        let r = IdentityData {
            name,
            socials,
            keywords: Vec::with_capacity(32),
            region: Region::Earth,
        };
        assert(r@.keywords =~= Seq::<Seq<char>>::empty());
        r
    }
}

impl Modification {
    /// Replaces, wholesale, the field of `identity` that this modification
    /// names, and leaves the others as they were.
    pub fn apply(self, identity: &mut IdentityData)
        ensures
            final(identity)@ == modified(old(identity)@, self@),
    {
        match self {
            Modification::Name(name) => identity.name = name,
            Modification::Socials(socials) => identity.socials = socials,
            Modification::Keywords(keywords) => identity.keywords = keywords,
            Modification::Region(region) => identity.region = region,
        }
    }
}

/// `a` and `b` replace the same field.
pub open spec fn same_field(a: ModificationModel, b: ModificationModel) -> bool {
    match (a, b) {
        (ModificationModel::Name(_), ModificationModel::Name(_)) => true,
        (ModificationModel::Socials(_), ModificationModel::Socials(_)) => true,
        (ModificationModel::Keywords(_), ModificationModel::Keywords(_)) => true,
        (ModificationModel::Region(_), ModificationModel::Region(_)) => true,
        _ => false,
    }
}

/// A keywords modification replaces the whole sequence of keywords: none of
/// the earlier keywords stays.
pub proof fn keywords_replaced(d: IdentityModel, k: Seq<Seq<char>>)
    ensures
        modified(d, ModificationModel::Keywords(k)).keywords == k,
{
}

/// Within a batch, a later modification of a field overrides an earlier one
/// of the same field: the two in a row do what the later one does alone.
pub proof fn later_modification_wins(
    d: IdentityModel,
    ms: Seq<ModificationModel>,
    first: ModificationModel,
    second: ModificationModel,
)
    requires
        same_field(first, second),
    ensures
        modified_all(d, ms.push(first).push(second)) == modified_all(d, ms.push(second)),
{
    assert(ms.push(first).push(second).drop_last() =~= ms.push(first));
    assert(ms.push(first).drop_last() =~= ms);
    assert(ms.push(second).drop_last() =~= ms);
    reveal_with_fuel(modified_all, 2);
}

/// A batch that only replaces the socials link leaves the name, the keywords
/// and the region as they were.
pub proof fn socials_leave_other_fields(d: IdentityModel, s: Seq<char>)
    ensures
        modified_all(d, seq![ModificationModel::Socials(s)]).name == d.name,
        modified_all(d, seq![ModificationModel::Socials(s)]).keywords == d.keywords,
        modified_all(d, seq![ModificationModel::Socials(s)]).region == d.region,
        modified_all(d, seq![ModificationModel::Socials(s)]).socials == s,
{
    assert(seq![ModificationModel::Socials(s)].drop_last() =~= Seq::<ModificationModel>::empty());
    reveal_with_fuel(modified_all, 2);
}

} // verus!
