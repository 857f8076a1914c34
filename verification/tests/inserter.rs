use inserter::bounded::Bounded;
use inserter::engine::{fill_gap, pump};
use inserter::stream::{Consumer, Producer, ReadOutcome};
use inserter::{Inserter, BUFFER_SIZE};
use std::io::{Error, ErrorKind};

#[test]
fn lib_insert_one_at_beginning() {
    let origin: Vec<u8> = (5..10).collect();
    let insertion: Vec<u8> = (0..5).collect();
    let mut dest = Vec::new();

    Inserter::new(origin.as_slice(), &mut dest)
        .insert(0, insertion.as_slice())
        .execute()
        .expect("manipulating u8 lists should never fail");

    assert_eq!(&(0..10).collect::<Vec<_>>(), &dest);
}

#[test]
fn lib_insert_one_at_end() {
    let origin: Vec<u8> = (0..5).collect();
    let insertion: Vec<u8> = (5..10).collect();
    let mut dest = Vec::new();

    Inserter::new(origin.as_slice(), &mut dest)
        .insert(origin.len(), insertion.as_slice())
        .execute()
        .expect("manipulating u8 lists should never fail");

    assert_eq!(&(0..10).collect::<Vec<_>>(), &dest);
}

#[test]
fn lib_insert_one_past_end() {
    let origin: Vec<u8> = (0..5).collect();
    let insertion: Vec<u8> = (10..15).collect();
    let mut dest = Vec::new();

    Inserter::new(origin.as_slice(), &mut dest)
        .insert(10, insertion.as_slice())
        .execute()
        .expect("manipulating u8 lists should never fail");

    let expect: Vec<u8> = (0..5).chain(10..15).collect();

    assert_eq!(&expect, &dest);
}

#[test]
fn interleave_single() {
    let origin: Vec<u8> = (0..10).filter(|i| i % 2 != 0).collect(); // odds
    let insertions: Vec<u8> = (0..10).filter(|i| i % 2 == 0).collect(); // evens
    let mut dest = Vec::new();

    {
        let mut inserter = Inserter::new(origin.as_slice(), &mut dest);
        for i in 0..insertions.len() {
            inserter = inserter.insert(i, &insertions[i..i + 1]);
        }
        inserter
            .execute()
            .expect("manipulating u8 lists should never fail");
    }

    assert_eq!(&(0..10).collect::<Vec<u8>>(), &dest);
}

// Producers and consumers for the tests below.

/// Hands out its bytes one per read.
struct Trickle<'a> {
    bytes: &'a [u8],
}

impl<'a> Producer for Trickle<'a> {
    fn read(&mut self, buf: &mut [u8]) -> ReadOutcome {
        match self.bytes.split_first() {
            None => ReadOutcome::Eof,
            Some((first, rest)) => {
                buf[0] = *first;
                self.bytes = rest;
                ReadOutcome::Got(1)
            }
        }
    }
}

/// Is interrupted at every other read, and hands out up to three bytes at
/// the reads between.
struct Stutter<'a> {
    bytes: &'a [u8],
    interrupt_next: bool,
    interruptions: usize,
}

impl<'a> Stutter<'a> {
    fn new(bytes: &'a [u8]) -> Self {
        Stutter { bytes, interrupt_next: true, interruptions: 0 }
    }
}

impl<'a> Producer for Stutter<'a> {
    fn read(&mut self, buf: &mut [u8]) -> ReadOutcome {
        if self.interrupt_next {
            self.interrupt_next = false;
            self.interruptions += 1;
            return ReadOutcome::Interrupted;
        }
        self.interrupt_next = true;
        if self.bytes.is_empty() {
            return ReadOutcome::Eof;
        }
        let n = self.bytes.len().min(buf.len()).min(3);
        buf[..n].copy_from_slice(&self.bytes[..n]);
        self.bytes = &self.bytes[n..];
        ReadOutcome::Got(n)
    }
}

/// Hands out its bytes and then breaks down.
struct Breaking<'a> {
    bytes: &'a [u8],
}

impl<'a> Producer for Breaking<'a> {
    fn read(&mut self, buf: &mut [u8]) -> ReadOutcome {
        if self.bytes.is_empty() {
            return ReadOutcome::Failed(Error::new(ErrorKind::BrokenPipe, "the pipe broke"));
        }
        let n = self.bytes.len().min(buf.len());
        buf[..n].copy_from_slice(&self.bytes[..n]);
        self.bytes = &self.bytes[n..];
        ReadOutcome::Got(n)
    }
}

/// Hands out `left` bytes, all alike, without holding them, and keeps the
/// sizes of the buffers it was handed.
struct Plenty {
    left: usize,
    byte: u8,
    largest_buffer: usize,
    reads: usize,
}

impl Plenty {
    fn new(left: usize, byte: u8) -> Self {
        Plenty { left, byte, largest_buffer: 0, reads: 0 }
    }
}

impl Producer for Plenty {
    fn read(&mut self, buf: &mut [u8]) -> ReadOutcome {
        self.reads += 1;
        self.largest_buffer = self.largest_buffer.max(buf.len());
        if self.left == 0 {
            return ReadOutcome::Eof;
        }
        let n = self.left.min(buf.len());
        for slot in buf[..n].iter_mut() {
            *slot = self.byte;
        }
        self.left -= n;
        ReadOutcome::Got(n)
    }
}

/// Keeps the sizes of the buffers that a slice is read with.
struct Watched<'a> {
    bytes: &'a [u8],
    buffers: Vec<usize>,
}

impl<'a> Producer for Watched<'a> {
    fn read(&mut self, buf: &mut [u8]) -> ReadOutcome {
        self.buffers.push(buf.len());
        if self.bytes.is_empty() {
            return ReadOutcome::Eof;
        }
        let n = self.bytes.len().min(buf.len());
        buf[..n].copy_from_slice(&self.bytes[..n]);
        self.bytes = &self.bytes[n..];
        ReadOutcome::Got(n)
    }
}

/// Counts what it is given, holds none of it, and keeps the size of the
/// largest write.
struct Meter {
    total: usize,
    largest_write: usize,
    sum: u64,
}

impl Consumer for Meter {
    fn write_all(&mut self, bytes: &[u8]) -> Result<(), Error> {
        self.total += bytes.len();
        self.largest_write = self.largest_write.max(bytes.len());
        for b in bytes {
            self.sum += *b as u64;
        }
        Ok(())
    }
}

/// Takes in bytes until it is full, and then fails.
struct Capped {
    held: Vec<u8>,
    room: usize,
}

impl Consumer for Capped {
    fn write_all(&mut self, bytes: &[u8]) -> Result<(), Error> {
        let n = bytes.len().min(self.room - self.held.len());
        self.held.extend_from_slice(&bytes[..n]);
        if n < bytes.len() {
            Err(Error::new(ErrorKind::WriteZero, "the sink is full"))
        } else {
            Ok(())
        }
    }
}

// The splicer.

#[test]
fn nothing_to_insert_gives_the_origin() {
    let origin: Vec<u8> = (0..=255).collect();
    let mut dest = Vec::new();

    Inserter::<&[u8], &[u8], Vec<u8>>::new(origin.as_slice(), &mut dest).execute().unwrap();

    assert_eq!(origin, dest);
}

#[test]
fn empty_origin_gives_the_insertions() {
    let origin: Vec<u8> = Vec::new();
    let mut dest = Vec::new();

    Inserter::new(origin.as_slice(), &mut dest)
        .insert(0, &[1u8, 2][..])
        .insert(7, &[3u8][..])
        .execute()
        .unwrap();

    assert_eq!(vec![1u8, 2, 3], dest);
}

#[test]
fn output_is_appended_to_what_the_target_holds() {
    let origin = [5u8, 6];
    let mut dest = vec![9u8, 9];

    Inserter::new(&origin[..], &mut dest).insert(1, &[0u8][..]).execute().unwrap();

    assert_eq!(vec![9u8, 9, 5, 0, 6], dest);
}

#[test]
fn insertions_at_one_offset_keep_the_order_of_registration() {
    let origin = *b"XZ";
    let mut dest = Vec::new();

    Inserter::new(&origin[..], &mut dest)
        .insert(1, &b"A"[..])
        .insert(1, &b"B"[..])
        .execute()
        .unwrap();

    assert_eq!(b"XABZ".to_vec(), dest);
}

#[test]
fn insertions_are_emitted_in_ascending_order_of_offset() {
    let origin = *b"0123456789";
    let mut dest = Vec::new();

    Inserter::new(&origin[..], &mut dest)
        .insert(8, &b"<h>"[..])
        .insert(2, &b"<b>"[..])
        .insert(8, &b"<i>"[..])
        .insert(0, &b"<a>"[..])
        .insert(2, &b"<c>"[..])
        .insert(10, &b"<z>"[..])
        .execute()
        .unwrap();

    assert_eq!(b"<a>01<b><c>234567<h><i>89<z>".to_vec(), dest);
}

#[test]
fn insertions_past_the_end_follow_the_origin_in_order() {
    let origin = *b"abc";
    let mut dest = Vec::new();

    Inserter::new(&origin[..], &mut dest)
        .insert(1000, &b"3"[..])
        .insert(3, &b"1"[..])
        .insert(4, &b"2"[..])
        .insert(usize::MAX, &b"5"[..])
        .insert(1000, &b"4"[..])
        .execute()
        .unwrap();

    assert_eq!(b"abc12345".to_vec(), dest);
}

#[test]
fn empty_insertions_change_nothing() {
    let origin = *b"abc";
    let mut dest = Vec::new();

    Inserter::new(&origin[..], &mut dest)
        .insert(1, &b""[..])
        .insert(2, &b""[..])
        .execute()
        .unwrap();

    assert_eq!(b"abc".to_vec(), dest);
}

#[test]
fn output_is_as_long_as_origin_and_insertions_together() {
    let origin: Vec<u8> = (0..100).collect();
    let a = [0u8; 7];
    let b = [1u8; 11];
    let c = [2u8; 13];
    let mut dest = Vec::new();

    Inserter::new(origin.as_slice(), &mut dest)
        .insert(50, &a[..])
        .insert(0, &b[..])
        .insert(500, &c[..])
        .execute()
        .unwrap();

    assert_eq!(100 + 7 + 11 + 13, dest.len());
    // the insertion due at 50 stands behind the one due at 0 and 50 origin bytes
    assert_eq!(&a[..], &dest[11 + 50..11 + 50 + 7]);
    // the origin's byte 50 is carried on by both of them
    assert_eq!(50u8, dest[50 + 11 + 7]);
    assert_eq!(49u8, dest[49 + 11]);
}

#[test]
fn streams_longer_than_the_buffer_are_spliced_whole() {
    let origin: Vec<u8> = (0..3 * BUFFER_SIZE + 17).map(|i| (i % 251) as u8).collect();
    let insertion: Vec<u8> = (0..2 * BUFFER_SIZE + 5).map(|i| (i % 7) as u8 + 251).collect();
    let at = BUFFER_SIZE + 100;
    let mut dest = Vec::new();

    Inserter::new(origin.as_slice(), &mut dest)
        .insert(at, insertion.as_slice())
        .execute()
        .unwrap();

    let mut expect = origin[..at].to_vec();
    expect.extend_from_slice(&insertion);
    expect.extend_from_slice(&origin[at..]);
    assert_eq!(expect, dest);
}

#[test]
fn one_byte_reads_give_the_same_output() {
    let origin: Vec<u8> = (0..200).collect();
    let insertion: Vec<u8> = (200..=255).collect();
    let mut whole = Vec::new();
    let mut trickled = Vec::new();

    Inserter::new(origin.as_slice(), &mut whole)
        .insert(7, insertion.as_slice())
        .insert(150, insertion.as_slice())
        .execute()
        .unwrap();
    Inserter::new(Trickle { bytes: &origin }, &mut trickled)
        .insert(7, Trickle { bytes: &insertion })
        .insert(150, Trickle { bytes: &insertion })
        .execute()
        .unwrap();

    assert_eq!(whole, trickled);
    assert_eq!(200 + 2 * 56, whole.len());
    assert_eq!(&insertion[..], &trickled[7..7 + 56]);
}

#[test]
fn interrupted_reads_are_issued_again() {
    let origin = *b"alpha bravo delta hotel";
    let mut dest = Vec::new();

    Inserter::new(Stutter::new(&origin), &mut dest)
        .insert(12, Stutter::new(b"charlie "))
        .insert(18, Stutter::new(b"echo fox golf "))
        .execute()
        .unwrap();

    assert_eq!(b"alpha bravo charlie delta echo fox golf hotel".to_vec(), dest);
}

#[test]
fn a_broken_insertion_stops_the_splice_and_keeps_what_was_written() {
    let origin = *b"0123456789";
    let mut dest = Vec::new();

    let result = Inserter::new(&origin[..], &mut dest)
        .insert(2, Box::new(&b"ab"[..]) as Box<dyn Producer>)
        .insert(5, Box::new(Breaking { bytes: b"cd" }))
        .insert(7, Box::new(&b"ef"[..]))
        .execute();

    let error = result.unwrap_err();
    assert_eq!(ErrorKind::BrokenPipe, error.kind());
    assert_eq!(b"01ab234cd".to_vec(), dest);
}

#[test]
fn a_broken_origin_stops_the_splice_where_it_ends() {
    let mut dest = Vec::new();

    let result = Inserter::new(Breaking { bytes: b"0123" }, &mut dest)
        .insert(2, &b"ab"[..])
        .insert(9, &b"cd"[..])
        .execute();

    assert_eq!(ErrorKind::BrokenPipe, result.unwrap_err().kind());
    assert_eq!(b"01ab23".to_vec(), dest);
}

#[test]
fn a_broken_origin_is_not_met_before_its_end_is_read() {
    let mut dest = Vec::new();

    let result = Inserter::new(Breaking { bytes: b"0123" }, &mut dest)
        .insert(2, &b"ab"[..])
        .insert(4, &b"cd"[..])
        .execute();

    // the insertion due at the very end is still emitted: the failure is
    // met only when the rest of the origin is asked for
    assert_eq!(ErrorKind::BrokenPipe, result.unwrap_err().kind());
    assert_eq!(b"01ab23cd".to_vec(), dest);
}

#[test]
fn a_full_sink_stops_the_splice_with_a_front_part_written() {
    let origin = *b"0123456789";
    let mut sink = Capped { held: Vec::new(), room: 6 };

    let result = Inserter::new(&origin[..], &mut sink).insert(3, &b"abcdef"[..]).execute();

    assert_eq!(ErrorKind::WriteZero, result.unwrap_err().kind());
    assert_eq!(b"012abc".to_vec(), sink.held);
}

#[test]
fn large_streams_pass_through_one_buffer() {
    let origin_len = 5_000_000;
    let insertion_len = 3_000_000;
    let mut sink = Meter { total: 0, largest_write: 0, sum: 0 };

    Inserter::new(Plenty::new(origin_len, 1), &mut sink)
        .insert(1_234_567, Plenty::new(insertion_len, 2))
        .insert(9_999_999, Plenty::new(insertion_len, 3))
        .execute()
        .unwrap();

    assert_eq!(origin_len + 2 * insertion_len, sink.total);
    assert_eq!((origin_len + 5 * insertion_len) as u64, sink.sum);
    assert!(sink.largest_write <= BUFFER_SIZE);
    assert_eq!(1024, BUFFER_SIZE);
}

#[test]
fn readers_are_never_handed_more_than_one_buffer() {
    let mut origin = Plenty::new(10_000, 1);
    let mut insertion = Plenty::new(10_000, 2);
    let mut sink = Meter { total: 0, largest_write: 0, sum: 0 };
    let mut buf = vec![0u8; BUFFER_SIZE];

    pump(&mut origin, &mut sink, &mut buf).unwrap();
    pump(&mut insertion, &mut sink, &mut buf).unwrap();

    assert_eq!(BUFFER_SIZE, origin.largest_buffer);
    assert_eq!(BUFFER_SIZE, insertion.largest_buffer);
    assert_eq!(20_000, sink.total);
}

#[test]
fn the_origin_is_not_read_beyond_the_next_offset() {
    let bytes = *b"0123456789";
    let mut origin = Watched { bytes: &bytes, buffers: Vec::new() };
    let mut dest = Vec::new();
    let mut buf = [0u8; 64];

    let sent = fill_gap(&mut origin, &mut dest, &mut buf, 4).unwrap();

    assert_eq!(4, sent);
    assert_eq!(b"0123".to_vec(), dest);
    assert_eq!(vec![4], origin.buffers);
    assert_eq!(b"456789", origin.bytes);
}

#[test]
fn mixed_kinds_of_producers_are_held_in_boxes() {
    let origin = *b"0123456789";
    let mut dest = Vec::new();

    Inserter::new(&origin[..], &mut dest)
        .insert(9, Box::new(Stutter::new(b"three")) as Box<dyn Producer>)
        .insert(1, Box::new(&b"one"[..]))
        .insert(5, Box::new(Trickle { bytes: b"two" }))
        .execute()
        .unwrap();

    assert_eq!(b"0one1234two5678three9".to_vec(), dest);
}

// The copying loops.

#[test]
fn pump_copies_everything() {
    let bytes: Vec<u8> = (0..=255).cycle().take(5000).collect();
    let mut source = bytes.as_slice();
    let mut dest = vec![7u8];
    let mut buf = [0u8; 16];

    pump(&mut source, &mut dest, &mut buf).unwrap();

    assert_eq!(5001, dest.len());
    assert_eq!(7, dest[0]);
    assert_eq!(&bytes[..], &dest[1..]);
    assert!(source.is_empty());
}

#[test]
fn pump_waits_out_interruptions() {
    let mut source = Stutter::new(b"0123456789");
    let mut dest = Vec::new();
    let mut buf = [0u8; 4];

    pump(&mut source, &mut dest, &mut buf).unwrap();

    assert_eq!(b"0123456789".to_vec(), dest);
    // ten bytes, three at a read, and the end: five reads, each after an
    // interruption
    assert_eq!(5, source.interruptions);
}

#[test]
fn pump_fails_with_the_cause_and_keeps_what_was_written() {
    let mut source = Breaking { bytes: b"0123456789" };
    let mut dest = Vec::new();
    let mut buf = [0u8; 4];

    let error = pump(&mut source, &mut dest, &mut buf).unwrap_err();

    assert_eq!(ErrorKind::BrokenPipe, error.kind());
    assert_eq!("the pipe broke", error.to_string());
    assert_eq!(b"0123456789".to_vec(), dest);
}

#[test]
fn pump_into_a_full_sink_fails_with_a_front_part_written() {
    let mut source = &b"0123456789"[..];
    let mut sink = Capped { held: Vec::new(), room: 6 };
    let mut buf = [0u8; 4];

    let error = pump(&mut source, &mut sink, &mut buf).unwrap_err();

    assert_eq!(ErrorKind::WriteZero, error.kind());
    assert_eq!(b"012345".to_vec(), sink.held);
}

#[test]
fn fill_gap_copies_the_count_asked_for() {
    let mut origin = &b"0123456789"[..];
    let mut dest = Vec::new();
    let mut buf = [0u8; 3];

    assert_eq!(7, fill_gap(&mut origin, &mut dest, &mut buf, 7).unwrap());

    assert_eq!(b"0123456".to_vec(), dest);
    assert_eq!(b"789", origin);
}

#[test]
fn fill_gap_stops_where_the_origin_ends() {
    let mut origin = &b"0123"[..];
    let mut dest = Vec::new();
    let mut buf = [0u8; 3];

    assert_eq!(4, fill_gap(&mut origin, &mut dest, &mut buf, 7).unwrap());

    assert_eq!(b"0123".to_vec(), dest);
    assert!(origin.is_empty());
}

#[test]
fn fill_gap_of_nothing_reads_nothing() {
    let bytes = *b"0123";
    let mut origin = Watched { bytes: &bytes, buffers: Vec::new() };
    let mut dest = Vec::new();
    let mut buf = [0u8; 3];

    assert_eq!(0, fill_gap(&mut origin, &mut dest, &mut buf, 0).unwrap());

    assert!(dest.is_empty());
    assert!(origin.buffers.is_empty());
}

#[test]
fn fill_gap_fails_where_the_origin_breaks_within_the_gap() {
    let mut origin = Breaking { bytes: b"0123" };
    let mut dest = Vec::new();
    let mut buf = [0u8; 3];

    let error = fill_gap(&mut origin, &mut dest, &mut buf, 5).unwrap_err();

    assert_eq!(ErrorKind::BrokenPipe, error.kind());
    assert_eq!(b"0123".to_vec(), dest);
}

#[test]
fn fill_gap_does_not_meet_a_break_behind_the_gap() {
    let mut origin = Breaking { bytes: b"0123" };
    let mut dest = Vec::new();
    let mut buf = [0u8; 3];

    assert_eq!(4, fill_gap(&mut origin, &mut dest, &mut buf, 4).unwrap());

    assert_eq!(b"0123".to_vec(), dest);
}

// The producers and consumers of the library.

#[test]
fn a_slice_is_read_from_its_front() {
    let mut source = &b"0123456789"[..];
    let mut buf = [0u8; 4];

    assert!(matches!(source.read(&mut buf), ReadOutcome::Got(4)));
    assert_eq!(b"0123", &buf);
    assert_eq!(b"456789", source);
    assert!(matches!(source.read(&mut buf), ReadOutcome::Got(4)));
    assert_eq!(b"4567", &buf);
    assert!(matches!(source.read(&mut buf), ReadOutcome::Got(2)));
    assert_eq!(b"89", &buf[..2]);
    assert!(matches!(source.read(&mut buf), ReadOutcome::Eof));
    assert!(matches!(source.read(&mut buf), ReadOutcome::Eof));
}

#[test]
fn a_vector_takes_in_bytes_at_its_end() {
    let mut sink = vec![1u8];

    sink.write_all(&[2, 3]).unwrap();
    sink.write_all(&[]).unwrap();
    sink.write_all(&[4]).unwrap();

    assert_eq!(vec![1u8, 2, 3, 4], sink);
}

#[test]
fn a_boxed_producer_reads_as_the_producer_in_the_box() {
    let mut source: Box<dyn Producer> = Box::new(&b"0123"[..]);
    let mut buf = [0u8; 3];

    assert!(matches!(source.read(&mut buf), ReadOutcome::Got(3)));
    assert_eq!(b"012", &buf);
    assert!(matches!(source.read(&mut buf), ReadOutcome::Got(1)));
    assert_eq!(b'3', buf[0]);
    assert!(matches!(source.read(&mut buf), ReadOutcome::Eof));
}

#[test]
fn a_bounded_view_ends_at_its_limit() {
    let mut source = &b"0123456789"[..];
    let mut buf = [0u8; 4];
    {
        let mut view = Bounded::new(&mut source, 6);
        assert!(matches!(view.read(&mut buf), ReadOutcome::Got(4)));
        assert_eq!(b"0123", &buf);
        assert_eq!(2, view.limit);
        assert!(matches!(view.read(&mut buf), ReadOutcome::Got(2)));
        assert_eq!(b"45", &buf[..2]);
        assert_eq!(0, view.limit);
        assert!(matches!(view.read(&mut buf), ReadOutcome::Eof));
    }
    assert_eq!(b"6789", source);
}

#[test]
fn a_bounded_view_ends_where_the_producer_ends() {
    let mut source = &b"01"[..];
    let mut buf = [0u8; 4];
    let mut view = Bounded::new(&mut source, 6);

    assert!(matches!(view.read(&mut buf), ReadOutcome::Got(2)));
    assert_eq!(4, view.limit);
    assert!(matches!(view.read(&mut buf), ReadOutcome::Eof));
    assert_eq!(4, view.limit);
}

#[test]
fn a_bounded_view_of_nothing_leaves_the_producer_alone() {
    let bytes = *b"0123";
    let mut source = Watched { bytes: &bytes, buffers: Vec::new() };
    let mut buf = [0u8; 4];
    {
        let mut view = Bounded::new(&mut source, 0);
        assert!(matches!(view.read(&mut buf), ReadOutcome::Eof));
    }
    assert!(source.buffers.is_empty());
    assert_eq!(b"0123", source.bytes);
}

#[test]
fn a_bounded_view_passes_on_interruptions_and_failures() {
    let mut stutter = Stutter::new(b"01");
    let mut buf = [0u8; 4];
    {
        let mut view = Bounded::new(&mut stutter, 1);
        assert!(matches!(view.read(&mut buf), ReadOutcome::Interrupted));
        assert_eq!(1, view.limit);
        assert!(matches!(view.read(&mut buf), ReadOutcome::Got(1)));
        assert!(matches!(view.read(&mut buf), ReadOutcome::Eof));
    }
    let mut broken = Breaking { bytes: b"" };
    let mut view = Bounded::new(&mut broken, 1);
    match view.read(&mut buf) {
        ReadOutcome::Failed(e) => assert_eq!(ErrorKind::BrokenPipe, e.kind()),
        _ => panic!("the failure was not passed on"),
    }
}
