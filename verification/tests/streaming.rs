use byte_marks::ByteMarker;
use byte_marks::FrameStep;
use byte_marks::Marked;
use rand::Rng;

fn collect_frames(marked: &mut Marked, chunks: &[Vec<u8>]) -> Vec<Vec<u8>> {
    let mut frames = Vec::new();
    let mut next_chunk = 0;
    loop {
        match marked.next_frame() {
            FrameStep::Frame(frame) => frames.push(frame),
            FrameStep::NeedInput => {
                if next_chunk < chunks.len() {
                    marked.feed(&chunks[next_chunk]);
                    next_chunk += 1;
                } else {
                    marked.feed(&[]);
                }
            }
            FrameStep::Done => break,
        }
    }
    frames
}

#[test]
fn mark_split_across_chunk_boundary() {
    let mut marked = Marked::new(b"sUfFiX", b"").unwrap();
    let chunks = vec![b"abcsUf".to_vec(), b"FiXdef".to_vec()];
    let frames = collect_frames(&mut marked, &chunks);
    assert_eq!(frames, vec![b"abc".to_vec(), b"def".to_vec()]);
}

#[test]
fn tail_split_across_chunk_boundary() {
    let mut marked = Marked::new(b"sUfFiX", b"tAiL").unwrap();
    let chunks = vec![b"onesUfFiXtwotA".to_vec(), b"iL".to_vec()];
    let frames = collect_frames(&mut marked, &chunks);
    assert_eq!(frames, vec![b"one".to_vec(), b"two".to_vec()]);
}

#[test]
fn single_byte_chunks_match_batch() {
    let message = b"This issUfFiX a msgsUfFiX with interspercedsUfFiX and finally a";
    let mut marked = Marked::new(b"sUfFiX", b"").unwrap();
    let chunks: Vec<Vec<u8>> = message.iter().map(|b| vec![*b]).collect();
    let frames = collect_frames(&mut marked, &chunks);

    let marker = ByteMarker::new(b"sUfFiX", b"").unwrap();
    let (segments, left_over) = marker.unmark(message).unwrap();
    let mut expected = segments;
    if let Some(rest) = left_over {
        expected.push(rest);
    }
    assert_eq!(frames, expected);
}

#[test]
fn random_chunking_matches_batch() {
    let mut randomizer = rand::thread_rng();
    let marker = ByteMarker::new(b"sUfFiX", b"").unwrap();
    for _ in 0..20 {
        let len: usize = randomizer.gen_range(0..200);
        let mut message: Vec<u8> = Vec::new();
        for _ in 0..len {
            message.push(randomizer.gen_range(b'a'..=b'f'));
        }
        if randomizer.gen_range(0..2) == 1 {
            message.extend(b"sUfFiX");
        }

        let mut expected = Vec::new();
        if let Some((segments, left_over)) = marker.unmark(&message) {
            expected = segments;
            if let Some(rest) = left_over {
                expected.push(rest);
            }
        }

        let mut chunks: Vec<Vec<u8>> = Vec::new();
        let mut at = 0;
        while at < message.len() {
            let step = randomizer.gen_range(1..8).min(message.len() - at);
            chunks.push(message[at..at + step].to_vec());
            at += step;
        }

        let mut marked = Marked::new(b"sUfFiX", b"").unwrap();
        let frames = collect_frames(&mut marked, &chunks);
        assert_eq!(frames, expected);
    }
}

#[test]
fn bytes_after_tail_are_ignored() {
    let mut marked = Marked::new(b"sUfFiX", b"tAiL").unwrap();
    let chunks =
        vec![b"StreamingsUfFiX withsUfFiX markssUfFiX and tailtAiLtrailing garbage".to_vec()];
    let frames = collect_frames(&mut marked, &chunks);
    assert_eq!(
        frames,
        vec![
            b"Streaming".to_vec(),
            b" with".to_vec(),
            b" marks".to_vec(),
            b" and tail".to_vec()
        ]
    );
}

#[test]
fn terminal_framer_stays_terminal() {
    let mut marked = Marked::new(b"sUfFiX", b"tAiL").unwrap();
    let chunks = vec![b"onetAiL".to_vec()];
    let frames = collect_frames(&mut marked, &chunks);
    assert_eq!(frames, vec![b"one".to_vec()]);
    for _ in 0..3 {
        assert!(matches!(marked.next_frame(), FrameStep::Done));
    }
}

#[test]
fn empty_source_yields_no_frames() {
    let mut marked = Marked::with_defaults();
    let frames = collect_frames(&mut marked, &[]);
    assert!(frames.is_empty());
}
