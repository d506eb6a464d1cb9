//! The output sink, and the record of what a sink is handed.
//!
//! A sink is the caller's own code: nothing is known of what it does with a
//! tile or of what it answers. The decoder therefore does not call a sink
//! directly. It calls it through a [`Recorder`], which keeps a record of each
//! call and of its answer. What the decoder promises about the tiles that it
//! hands over is stated over that record.

use crate::decoder::JpegDecoder;
use crate::types::{Error, Rectangle};
use vstd::prelude::*;

verus! {

/// The sink that takes the decoded image, one tile at a time.
pub trait OutputCallback {
    /// Takes the tile of one MCU. `bitmap` begins with the pixels of the
    /// tile, row by row, and `rect` is the place of the tile in the scaled
    /// image. Returns whether decoding goes on.
    fn output(&mut self, decoder: &JpegDecoder, bitmap: &[u8], rect: &Rectangle) -> (answer: Result<
        bool,
        Error,
    >);
}

/// One call of an output sink: what the sink was handed and what it
/// answered.
pub struct Delivery {
    /// The place of the tile in the scaled image.
    pub rect: Rectangle,
    /// The buffer as it was handed over. Its front holds the pixels of the
    /// tile, row by row.
    pub bitmap: Seq<u8>,
    /// Width of the scaled image, as the decoder reported it during the call.
    pub width: u16,
    /// Height of the scaled image, as the decoder reported it during the
    /// call.
    pub height: u16,
    /// Number of colour components, as the decoder reported it during the
    /// call.
    pub components: u8,
    /// What the sink answered: whether decoding goes on, or its error.
    pub answer: Result<bool, Error>,
}

/// A sink with the record of the calls made to it. The record grows by one
/// entry with each call of [`Recorder::output`], and by nothing else.
pub struct Recorder<'a, C: OutputCallback> {
    sink: &'a mut C,
    log: Ghost<Seq<Delivery>>,
}

impl<'a, C: OutputCallback> Recorder<'a, C> {
    /// The calls that the sink has taken through this recorder, oldest
    /// first.
    pub closed spec fn received(&self) -> Seq<Delivery> {
        self.log@
    }

    /// A recorder for `sink`, with an empty record.
    pub fn new(sink: &'a mut C) -> (recorder: Self)
        ensures
            recorder.received() == Seq::<Delivery>::empty(),
    {
        Recorder { sink, log: Ghost(Seq::empty()) }
    }

    /// Hands the tile to the sink, returns the answer of the sink, and
    /// records both.
    pub fn output(&mut self, decoder: &JpegDecoder, bitmap: &[u8], rect: &Rectangle) -> (answer: Result<
        bool,
        Error,
    >)
        ensures
            final(self).received() == old(self).received().push(
                Delivery {
                    rect: *rect,
                    bitmap: bitmap@,
                    width: decoder.spec_width(),
                    height: decoder.spec_height(),
                    components: decoder.spec_components(),
                    answer,
                },
            ),
    {
        let answer = self.sink.output(decoder, bitmap, rect);
        proof {
            self.log@ = self.log@.push(
                Delivery {
                    rect: *rect,
                    bitmap: bitmap@,
                    width: decoder.spec_width(),
                    height: decoder.spec_height(),
                    components: decoder.spec_components(),
                    answer,
                },
            );
        }
        answer
    }
}

} // verus!
