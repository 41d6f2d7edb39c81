//! Device registry: the one stable identity of a local installation.
//!
//! The identity lives under a single key of a small persisted key/value
//! table. The registry here is the in-memory image of that entry: the owner
//! loads it from the table, asks for the identity, and writes the entry back
//! when the answer says that it was newly created.

use vstd::prelude::*;

verus! {

/// Whether `c` is one of `0`-`9`, `a`-`f`.
pub open spec fn is_lower_hex(c: char) -> bool {
    ('0' as u32 <= c as u32 && c as u32 <= '9' as u32) || ('a' as u32 <= c as u32 && c as u32
        <= 'f' as u32)
}

/// Whether position `i` of a hyphenated UUID holds a hyphen.
pub open spec fn is_hyphen_position(i: int) -> bool {
    i == 8 || i == 13 || i == 18 || i == 23
}

/// The hyphenated lower-case text form of a UUID: 36 characters, hyphens
/// after the 8th, 12th, 16th and 20th hex digit.
pub open spec fn is_uuid_text(s: Seq<char>) -> bool {
    &&& s.len() == 36
    &&& forall|i: int|
        0 <= i < 36 ==> if is_hyphen_position(i) {
            #[trigger] s[i] == '-'
        } else {
            is_lower_hex(s[i])
        }
}

/// The text form of a random (version 4) UUID: the version digit is `4` and
/// the variant digit is one of `8`, `9`, `a`, `b`.
pub open spec fn is_random_uuid_text(s: Seq<char>) -> bool {
    &&& is_uuid_text(s)
    &&& s[14] == '4'
    &&& (s[19] == '8' || s[19] == '9' || s[19] == 'a' || s[19] == 'b')
}

/// A new random identity in text form.
///
/// Trusted: calls `uuid::Uuid::new_v4` and renders the result with its
/// `Display` impl (`to_string`). The contract claims only the shape of the
/// text, which is the same for every random UUID: the hyphenated lower-case
/// form with the version and variant digits in their places. Nothing is
/// claimed about which identity comes back.
#[verifier::external_body]
fn fresh_uuid_text() -> (id: String)
    ensures
        is_random_uuid_text(id@),
{
    uuid::Uuid::new_v4().to_string()
}

/// The answer of the registry: the identity, and whether it was created by
/// this request and still has to be written to the persisted table.
#[derive(Debug)]
pub struct EnsuredDevice {
    pub id: String,
    pub created: bool,
}

/// In-memory image of the persisted device identity entry.
#[derive(Debug)]
pub struct DeviceRegistry {
    device_id: Option<String>,
}

impl View for DeviceRegistry {
    type V = Option<Seq<char>>;

    closed spec fn view(&self) -> Option<Seq<char>> {
        match self.device_id {
            Some(id) => Some(id@),
            None => None,
        }
    }
}

/// What a request for the identity does to a registry that holds `stored`
/// when `candidate` is the identity on offer: the registry afterwards, the
/// identity returned, and whether it was newly created.
pub open spec fn ensure_step(stored: Option<Seq<char>>, candidate: Seq<char>) -> (
    Option<Seq<char>>,
    Seq<char>,
    bool,
) {
    match stored {
        Some(id) => (Some(id), id, false),
        None => (Some(candidate), candidate, true),
    }
}

impl DeviceRegistry {
    /// The registry of a fresh store: no identity yet.
    pub fn new() -> (registry: Self)
        ensures
            registry@ is None,
    {
        DeviceRegistry { device_id: None }
    }

    /// The registry of a store whose identity entry reads `stored`.
    pub fn from_stored(stored: Option<String>) -> (registry: Self)
        ensures
            registry@ == match stored {
                Some(id) => Some(id@),
                None => None,
            },
    {
        DeviceRegistry { device_id: stored }
    }

    /// Returns the stored identity if there is one; otherwise adopts
    /// `candidate` as the identity and reports it as newly created.
    pub fn ensure_device_id_with(&mut self, candidate: String) -> (out: EnsuredDevice)
        ensures
            final(self)@ == ensure_step(old(self)@, candidate@).0,
            out.id@ == ensure_step(old(self)@, candidate@).1,
            out.created == ensure_step(old(self)@, candidate@).2,
    {
        match &self.device_id {
            Some(id) => EnsuredDevice { id: id.clone(), created: false },
            None => {
                let id = candidate.clone();
                self.device_id = Some(candidate);
                EnsuredDevice { id, created: true }
            },
        }
    }

    /// Returns the stored identity if there is one; otherwise generates a new
    /// random identity, keeps it, and reports it as newly created.
    pub fn ensure_device_id(&mut self) -> (out: EnsuredDevice)
        ensures
            final(self)@ == Some(out.id@),
            old(self)@ is Some ==> out.id@ == old(self)@->0 && !out.created,
            old(self)@ is None ==> out.created && is_random_uuid_text(out.id@),
    {
        match &self.device_id {
            Some(id) => EnsuredDevice { id: id.clone(), created: false },
            None => {
                let fresh = fresh_uuid_text();
                self.ensure_device_id_with(fresh)
            },
        }
    }
}

/// Once a registry has answered, every later request returns the same
/// identity, creates nothing and leaves the registry as it is, whatever
/// candidates are on offer.
pub proof fn lemma_device_id_is_stable(
    stored: Option<Seq<char>>,
    first: Seq<char>,
    second: Seq<char>,
)
    ensures
        ({
            let once = ensure_step(stored, first);
            let twice = ensure_step(once.0, second);
            &&& twice.0 == once.0
            &&& twice.1 == once.1
            &&& !twice.2
        }),
{
}

} // verus!
