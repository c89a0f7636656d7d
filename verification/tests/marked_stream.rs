use byte_marks::FrameStep;
use byte_marks::Marked;

fn collect_frames(mut marked: Marked, chunks: &[&[u8]]) -> Vec<Vec<u8>> {
    let mut frames = Vec::new();
    let mut next_chunk = 0;
    loop {
        match marked.next_frame() {
            FrameStep::Frame(frame) => frames.push(frame),
            FrameStep::NeedInput => {
                if next_chunk < chunks.len() {
                    marked.feed(chunks[next_chunk]);
                    next_chunk += 1;
                } else {
                    marked.feed(&[]);
                }
            }
            FrameStep::Done => break,
        }
    }
    frames
}

#[test]
fn test_empty_reader() {
    let marked = Marked::with_defaults();
    for bytes in collect_frames(marked, &[]) {
        assert!(!bytes.is_empty());
    }
}

#[test]
fn test_not_empty_reader() {
    let marked = Marked::with_defaults();
    for bytes in collect_frames(marked, &[&[1, 2, 3]]) {
        assert!(!bytes.is_empty());
    }
}

#[test]
fn test_stream_with_marks_and_tail() {
    let message = "This issUfFiX a msgsUfFiX with interspercedsUfFiX with suffixes and finally atAiL";
    let mut segments = Vec::new();
    segments.push("This is".as_bytes());
    segments.push(" a msg".as_bytes());
    segments.push(" with intersperced".as_bytes());
    segments.push(" with suffixes and finally a".as_bytes());

    let marked = Marked::new("sUfFiX".as_bytes(), "tAiL".as_bytes()).unwrap();
    let frames = collect_frames(marked, &[message.as_bytes()]);
    let zipped = frames.into_iter().zip(segments.iter());

    for (unmarked, segment) in zipped {
        assert!(unmarked == segment.to_vec());
    }
}
