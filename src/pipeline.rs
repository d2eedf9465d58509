//! The consuming end of the reshape pipeline: reader workers send the chunk of
//! each (coarse channel, timestep) pair over a bounded channel as they read
//! it, in any order, and a single consumer scatters them into the buffers.
use vstd::prelude::*;
use crossbeam_channel::Receiver;
use crate::image::ImageBuffer;
use crate::reshape::{ReshapeError, Reshaper};

verus! {

#[verifier::external_type_specification]
#[verifier::external_body]
#[verifier::reject_recursive_types(T)]
pub struct ExReceiver<T>(Receiver<T>);

/// What a reader worker sends: the coarse channel and timestep of a chunk,
/// and the chunk, or `None` where reading it failed.
pub type ChunkMessage<T> = (usize, usize, Option<Vec<T>>);

/// Relies on crossbeam_channel::Receiver::recv: blocks until a message can be
/// taken, and fails only once the channel is empty and every sender is gone.
/// Which message comes, and when the senders leave, is up to the workers, so
/// nothing is stated of the result.
#[verifier::external_body]
fn receive<T>(rx: &Receiver<T>) -> (r: Option<T>) {
    rx.recv().ok()
}

/// Handles one message from a reader: a failed read is refused with
/// `SourceRead` and changes nothing; a chunk goes to `accept_chunk`, with the
/// same outcome.
pub fn accept_message<T: Copy>(reshaper: &mut Reshaper<T>, msg: ChunkMessage<T>) -> (r: Result<
    (),
    ReshapeError,
>)
    requires
        old(reshaper).wf(),
    ensures
        final(reshaper).wf(),
        msg.2 is None ==> r == Err::<(), ReshapeError>(
            ReshapeError::SourceRead { coarse_chan: msg.0, timestep: msg.1 },
        ) && *final(reshaper) == *old(reshaper),
        msg.2 matches Some(c) ==> (match old(reshaper).accept_error(msg.0, msg.1, c@.len() as int) {
            Some(e) => r == Err::<(), ReshapeError>(e) && *final(reshaper) == *old(reshaper),
            None => r is Ok && final(reshaper).geometry == old(reshaper).geometry
                && final(reshaper).fill == old(reshaper).fill && final(reshaper).chunks@ == old(
                reshaper,
            ).chunks@.insert((msg.0 as int, msg.1 as int), c@),
        }),
{
    let (coarse_chan, timestep, read) = msg;
    match read {
        None => Err(ReshapeError::SourceRead { coarse_chan, timestep }),
        Some(chunk) => reshaper.accept_chunk(coarse_chan, timestep, &chunk),
    }
}

/// Takes chunks from `rx` until the reshaper has one for every (coarse
/// channel, timestep) pair or every sender is gone, then hands out the
/// buffers. Stops at the first chunk that could not be read or that the
/// reshaper refuses (see `accept_message`). Whatever the workers sent, a
/// successful result holds the scatter, into buffers that started as
/// `reshaper`'s, of a complete set of chunks that includes those `reshaper`
/// already held. A reshaper that expects no chunk succeeds without receiving.
pub fn consume_chunks<T: Copy>(reshaper: Reshaper<T>, rx: &Receiver<ChunkMessage<T>>) -> (r: Result<
    Vec<ImageBuffer<T>>,
    ReshapeError,
>)
    requires
        reshaper.wf(),
    ensures
        r matches Ok(v) ==> (exists|done: Reshaper<T>|
            done.wf() && done.geometry == reshaper.geometry && done.fill == reshaper.fill
                && done.is_complete() && done.holds_buffers(v@) && reshaper.chunks@.submap_of(
                done.chunks@,
            )),
        reshaper.received@.len() == 0 ==> r is Ok,
{
    let ghost initial = reshaper.received@.len();
    let mut state = reshaper;
    let ghost start = state.chunks@;
    let ghost g = state.geometry;
    let ghost fill = state.fill;
    let grid = state.received.len();
    let mut taken: usize = 0;
    let mut open = true;
    while open && taken < grid
        invariant
            state.wf(),
            state.geometry == g,
            state.fill == fill,
            grid == state.received@.len(),
            grid == initial,
            initial == reshaper.received@.len(),
            g.wf(),
            start.submap_of(state.chunks@),
        decreases grid - taken,
    {
        match receive(rx) {
            None => {
                open = false;
            },
            Some(msg) => {
                match accept_message(&mut state, msg) {
                    Ok(()) => {},
                    Err(e) => {
                        return Err(e);
                    },
                }
            },
        }
        taken += 1;
    }
    let ghost done = state;
    proof {
        if grid == 0 {
            let c = g.num_coarse_chans as int;
            let t = g.num_timesteps as int;
            assert(c == 0) by (nonlinear_arith)
                requires c * t == 0, t >= 1, c >= 0;
        }
    }
    let r = state.finish();
    proof {
        if r is Ok {
            assert(done.wf() && done.is_complete() && done.holds_buffers(r->Ok_0@));
        }
    }
    r
}

} // verus!
