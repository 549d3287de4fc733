//! The service block of a recovery record.

use vstd::prelude::*;

#[allow(unused_imports)]
use crate::crc32::crc32_of;
use crate::error::{Error, Result};
use crate::rar50::blocks::{stored_service_header, PreparedBlock};
#[allow(unused_imports)]
use crate::rar50::blocks::{block_result, service_image_of, BlockView};
use crate::rar50::vint::write_vint;
#[allow(unused_imports)]
use crate::rar50::vint::vint;
use crate::recovery::rar5::plan::plan_inline_recovery;
#[allow(unused_imports)]
use crate::recovery::rar5::plan::inline_recovery_plan;
use crate::recovery::rar5::record::{
    build_streamed_inline_recovery, choose_recovery_memory_mode, RecoveryMemoryMode,
};
#[allow(unused_imports)]
use crate::recovery::rar5::record::{
    build_error, lemma_plan_of, memory_choice, record_bytes, recovery_event, takes_recovery,
};
use crate::write_progress::{ask, WriteProgress};
#[allow(unused_imports)]
use crate::write_progress::{has_stopped, is_stopped_by, is_told};

verus! {

/// The name of recovery services.
pub open spec fn recovery_name() -> Seq<u8> {
    seq![0x52u8, 0x52]
}

/// Why no recovery record of a prefix can be built under a memory limit.
pub open spec fn recovery_error(
    prefix_len: nat,
    percent: u64,
    memory_limit: u64,
) -> Option<Error> {
    let plan = inline_recovery_plan(prefix_len as int, percent as int);
    match memory_choice(plan, memory_limit) {
        Err(error) => Some(Error::Recovery(error)),
        Ok((_, required)) => if required > memory_limit {
            Some(
                Error::MemoryLimitExceeded { limit: memory_limit, required, dictionary_size: 0 },
            )
        } else {
            match build_error(plan) {
                Some(error) => Some(Error::Recovery(error)),
                None => None,
            }
        },
    }
}

/// The recovery record of everything before it.
pub open spec fn recovery_payload(prefix: Seq<u8>, percent: u64) -> Seq<u8> {
    let plan = inline_recovery_plan(prefix.len() as int, percent as int);
    record_bytes(prefix, plan, plan.recovery_shards as nat)
}

/// The recovery block behind a prefix.
pub open spec fn recovery_block_of(
    prefix: Seq<u8>,
    percent: u64,
    memory_limit: u64,
) -> std::result::Result<BlockView, Error> {
    let payload = recovery_payload(prefix, percent);
    match recovery_error(prefix.len(), percent, memory_limit) {
        Some(error) => Err(error),
        None => match service_image_of(
            recovery_name(),
            payload.len() as u64,
            crc32_of(payload),
            vint(percent as nat),
        ) {
            Err(error) => Err(error),
            Ok(header) => Ok(
                BlockView {
                    header,
                    payload,
                    payload_len: payload.len() as u64,
                    quick_open_cached: false,
                    spooled: payload.len() as u64,
                    buffer: 0,
                },
            ),
        },
    }
}

/// Computes the recovery record over `prefix` and its service block. The receiver
/// is asked before and after, so that a request to stop that comes with the
/// record's progress is heard.
#[verifier::rlimit(30)]
#[verifier::spinoff_prover]
pub fn recovery_service<P: WriteProgress>(
    recovery_percent: u64,
    prefix: &[u8],
    memory_limit: u64,
    progress: Option<&P>,
) -> (r: Result<PreparedBlock>)
    requires
        takes_recovery(progress),
    ensures
        is_stopped_by(progress, r) || block_result(r) == recovery_block_of(
            prefix@,
            recovery_percent,
            memory_limit,
        ),
        has_stopped(progress) ==> r is Err,
        r matches Ok(block) ==> is_told(progress, recovery_event(true, block.payload_len, 1))
            && is_told(progress, recovery_event(false, block.payload_len, 1)),
{
    let prefix_len: usize = prefix.len();
    let plan = match plan_inline_recovery(prefix_len as u64, recovery_percent) {
        Ok(plan) => plan,
        Err(error) => {
            return Err(Error::Recovery(error));
        },
    };
    proof {
        lemma_plan_of(prefix@.len() as int, recovery_percent as int);
    }
    let (mode, required): (RecoveryMemoryMode, u64) = match choose_recovery_memory_mode(
        plan,
        memory_limit,
    ) {
        Ok(choice) => choice,
        Err(error) => {
            return Err(Error::Recovery(error));
        },
    };
    if required > memory_limit {
        return Err(
            Error::MemoryLimitExceeded { limit: memory_limit, required, dictionary_size: 0 },
        );
    }
    match ask(progress) {
        Ok(()) => {},
        Err(error) => {
            return Err(error);
        },
    }
    let built = match build_streamed_inline_recovery(prefix, recovery_percent, mode, progress, 1) {
        Ok(built) => built,
        Err(error) => {
            return Err(Error::Recovery(error));
        },
    };
    match ask(progress) {
        Ok(()) => {},
        Err(error) => {
            return Err(error);
        },
    }
    let name: [u8; 2] = [0x52, 0x52];
    assert(name@ =~= recovery_name());
    let mut service_data: Vec<u8> = Vec::new();
    write_vint(&mut service_data, recovery_percent);
    assert(service_data@ == vint(recovery_percent as nat));
    match stored_service_header(&name, built.payload_len, built.payload_crc32, &service_data) {
        Ok(header) => Ok(
            PreparedBlock {
                header,
                payload: built.payload,
                payload_len: built.payload_len,
                quick_open_cached: false,
                spooled: built.payload_len,
                buffer: 0,
            },
        ),
        Err(error) => Err(error),
    }
}

} // verus!
