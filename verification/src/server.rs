//! The dispatch at the heart of a connection's loop: one parsed command is
//! applied to the shared store and answered with a reply frame. The socket
//! loop around it only reads bytes, hands frames in, and writes the reply
//! bytes out.

use vstd::prelude::*;
use vstd::utf8::encode_utf8;

use crate::command::Command;
use crate::command::CommandV;
use crate::frame::Frame;
use crate::frame::FrameV;
use crate::store::AKVMEM;

verus! {

/// Copy a string's UTF-8 bytes into a byte vector.
fn string_bytes(s: &String) -> (r: Vec<u8>)
    ensures
        r@ == encode_utf8(s@),
{
    let mut v: Vec<u8> = Vec::new();
    v.extend_from_slice(s.as_str().as_bytes());
    proof {
        assert(Seq::<u8>::empty() + encode_utf8(s@) =~= encode_utf8(s@));
    }
    v
}

/// Whether a mutation for this key and value fits the store: the key is
/// non-empty, the record's lengths fit their 32-bit fields, and the log can
/// still grow by one record.
pub open spec fn mutation_fits(db: AKVMEM, key: Seq<char>, value_bytes: Seq<u8>) -> bool {
    &&& encode_utf8(key).len() > 0
    &&& encode_utf8(key).len() + value_bytes.len() <= u32::MAX
    &&& db.log@.len() + 12 + encode_utf8(key).len() + value_bytes.len() <= usize::MAX
}

/// Check the limits of `mutation_fits` at run time.
fn fits(db: &AKVMEM, kb: &Vec<u8>, vb: &Vec<u8>) -> (r: bool)
    ensures
        r == (kb@.len() > 0 && kb@.len() + vb@.len() <= u32::MAX && db.log@.len() + 12 + kb@.len()
            + vb@.len() <= usize::MAX),
{
    if kb.len() == 0 {
        return false;
    }
    if kb.len() as u64 > u32::MAX as u64 || vb.len() as u64 > u32::MAX as u64 - kb.len() as u64 {
        return false;
    }
    let budget = usize::MAX - 12;
    if kb.len() > budget {
        return false;
    }
    let after_key = budget - kb.len();
    if vb.len() > after_key {
        return false;
    }
    if db.log.len() > after_key - vb.len() {
        return false;
    }
    true
}

/// Apply one command to the store and build the reply frame: `OK` for a
/// mutation that was appended, the value or a null for a read, and an error
/// frame for a mutation the store must reject.
pub fn apply_command(db: &mut AKVMEM, cmd: &Command) -> (r: Frame)
    requires
        old(db).wf(),
    ensures
        final(db).wf(),
        match cmd@ {
            CommandV::Get { key } => *final(db) == *old(db) && (if old(db)@.contains_key(
                encode_utf8(key),
            ) {
                r@ == FrameV::Bulk(old(db)@[encode_utf8(key)])
            } else {
                r@ == FrameV::Null
            }),
            CommandV::Put { key, value } => if mutation_fits(*old(db), key, encode_utf8(value)) {
                final(db)@ == old(db)@.insert(encode_utf8(key), encode_utf8(value)) && r@
                    == FrameV::Simple("OK"@)
            } else {
                *final(db) == *old(db) && r@ is Error
            },
            CommandV::Update { key, value } => if mutation_fits(*old(db), key, encode_utf8(value)) {
                final(db)@ == old(db)@.insert(encode_utf8(key), encode_utf8(value)) && r@
                    == FrameV::Simple("OK"@)
            } else {
                *final(db) == *old(db) && r@ is Error
            },
            CommandV::Delete { key } => if mutation_fits(*old(db), key, Seq::empty()) {
                final(db)@ == old(db)@.remove(encode_utf8(key)) && r@ == FrameV::Simple("OK"@)
            } else {
                *final(db) == *old(db) && r@ is Error
            },
        },
{
    match cmd {
        Command::Get { key } => {
            let kb = string_bytes(key);
            match db.get(&kb) {
                Ok(Some(v)) => Frame::Bulk(v),
                Ok(None) => Frame::Null,
                Err(_) => {
                    proof {
                        assert(false);
                    }
                    Frame::Null
                },
            }
        },
        Command::Put { key, value } => {
            let kb = string_bytes(key);
            let vb = string_bytes(value);
            if !fits(db, &kb, &vb) {
                return Frame::Error("value rejected by store".to_owned());
            }
            match db.insert(&kb, &vb) {
                Ok(()) => Frame::Simple("OK".to_owned()),
                Err(_) => {
                    proof {
                        assert(false);
                    }
                    Frame::Null
                },
            }
        },
        Command::Update { key, value } => {
            let kb = string_bytes(key);
            let vb = string_bytes(value);
            if !fits(db, &kb, &vb) {
                return Frame::Error("value rejected by store".to_owned());
            }
            match db.update(&kb, &vb) {
                Ok(()) => Frame::Simple("OK".to_owned()),
                Err(_) => {
                    proof {
                        assert(false);
                    }
                    Frame::Null
                },
            }
        },
        Command::Delete { key } => {
            let kb = string_bytes(key);
            let vb: Vec<u8> = Vec::new();
            if !fits(db, &kb, &vb) {
                return Frame::Error("value rejected by store".to_owned());
            }
            match db.delete(&kb) {
                Ok(()) => Frame::Simple("OK".to_owned()),
                Err(_) => {
                    proof {
                        assert(false);
                    }
                    Frame::Null
                },
            }
        },
    }
}

} // verus!
