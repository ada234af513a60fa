//! The compute role: one task at a time, pulled off the wire, processed,
//! and answered.  Decode the task message, rebuild the frame, run the
//! stripe pipeline, wrap the edge map as a result carrying the task's
//! sequence number, and serialize it.
//!
//! The surrounding program owns the blocking receive and the send; this
//! function is the whole of what happens in between, so a worker is
//! stateless across frames and a malformed task is dropped by returning
//! its error.

use vstd::prelude::*;

use crate::codec::bits_i32;
use crate::codec::decode;
use crate::codec::field_cols;
use crate::codec::field_mat_type;
use crate::codec::field_number;
use crate::codec::field_rows;
use crate::codec::from_mat;
use crate::codec::spec_decode_err;
use crate::codec::spec_decode_ok;
use crate::codec::spec_encode_parts;
use crate::codec::HEADER_BYTES;
use crate::frame::PipelineError;
use crate::tile::do_frame;
use crate::tile::process_spec;
use crate::tile::trim_spec;
use crate::tile::STRIPE_COUNT;

verus! {

/// The row count a task buffer claims.
pub open spec fn task_rows(b: Seq<u8>) -> int {
    bits_i32(field_rows(b)) as int
}

/// The column count a task buffer claims.
pub open spec fn task_cols(b: Seq<u8>) -> int {
    bits_i32(field_cols(b)) as int
}

/// The channel tag a task buffer claims.
pub open spec fn task_mat_type(b: Seq<u8>) -> int {
    bits_i32(field_mat_type(b)) as int
}

/// Whether a task buffer can be processed end to end: it decodes, carries
/// colour pixels, and has the shape the stripe pipeline and the result
/// wire format accept.
pub open spec fn worker_ok(b: Seq<u8>) -> bool {
    &&& spec_decode_ok(b)
    &&& task_mat_type(b) == 3
    &&& task_rows(b) >= STRIPE_COUNT
    &&& task_rows(b) % (STRIPE_COUNT as int) == 0
    &&& task_cols(b) >= 3
}

/// The exact result bytes a processable task is answered with: a
/// single-channel message, two rows and two columns smaller, carrying the
/// task's sequence number and the trimmed whole-frame edge map.
pub open spec fn worker_result(b: Seq<u8>) -> Seq<u8> {
    spec_encode_parts(
        (task_rows(b) - 2) as i32,
        (task_cols(b) - 2) as i32,
        1,
        field_number(b),
        0,
        trim_spec(
            process_spec(
                b.skip(HEADER_BYTES as int),
                task_cols(b) as nat,
                task_rows(b) as nat,
            ),
            task_cols(b) as nat,
            task_rows(b) as nat,
        ),
    )
}

/// The error a task that cannot be processed is dropped with: the decode
/// error, a wrong channel count, a shape the stripes cannot divide, or a
/// result too narrow for the wire.
pub open spec fn worker_err(b: Seq<u8>) -> PipelineError {
    if !spec_decode_ok(b) {
        spec_decode_err(b)
    } else if task_mat_type(b) != 3 {
        PipelineError::NotBgrData
    } else if !(task_cols(b) >= 2 && task_rows(b) >= STRIPE_COUNT && task_rows(b) % (
    STRIPE_COUNT as int) == 0) {
        PipelineError::BadShape
    } else {
        PipelineError::BadDimensions
    }
}

/// Handles one task: decode, process, encode the result.  Succeeds on
/// exactly the processable tasks; anything else comes back as the error
/// the surrounding loop drops the task with.
pub fn handle_task(task: &Vec<u8>) -> (r: Result<Vec<u8>, PipelineError>)
    ensures
        r is Ok <==> worker_ok(task@),
        r matches Ok(out) ==> out@ == worker_result(task@),
        r matches Err(e) ==> e == worker_err(task@),
{
    let msg = match decode(task) {
        Ok(m) => m,
        Err(e) => {
            return Err(e);
        },
    };
    let f = match msg.to_frame() {
        Ok(f) => f,
        Err(e) => {
            // A decoded message is well-formed, so the frame always
            // rebuilds.
            proof {
                assert(false);
            }
            return Err(e);
        },
    };
    let g = match do_frame(&f) {
        Ok(g) => g,
        Err(e) => {
            return Err(e);
        },
    };
    let out_msg = match from_mat(&g, msg.number, 0) {
        Ok(m) => m,
        Err(e) => {
            assert(g.width == task_cols(task@) - 2);
            return Err(e);
        },
    };
    let out = out_msg.encode();
    proof {
        assert(out_msg.rows == task_rows(task@) - 2);
        assert(out_msg.cols == task_cols(task@) - 2);
        assert(out_msg.data@ == trim_spec(
            process_spec(
                task@.skip(HEADER_BYTES as int),
                task_cols(task@) as nat,
                task_rows(task@) as nat,
            ),
            task_cols(task@) as nat,
            task_rows(task@) as nat,
        ));
        assert(out@ == worker_result(task@));
    }
    Ok(out)
}

} // verus!
