use onebrc::chunk::process_chunk;
use onebrc::error::Error;
use onebrc::merge::{can_merge, merge};
use onebrc::plan::plan_chunks;
use onebrc::report::format_report;
use onebrc::summary::summarize;

fn text_of(report: Result<Vec<u8>, Error>) -> String {
    String::from_utf8(report.unwrap()).unwrap()
}

#[test]
fn a_file_of_one_line() {
    assert_eq!(text_of(summarize(b"Hamburg;12.0\n", 1)), "{Hamburg=12.0/12.0/12.0}");
}

#[test]
fn two_stations_two_lines_each() {
    let text = b"Hamburg;12.0\nBulawayo;8.9\nHamburg;-1.5\nBulawayo;18.2\n";
    assert_eq!(text_of(summarize(text, 1)), "{Bulawayo=8.9/13.6/18.2, Hamburg=-1.5/5.3/12.0}");
}

#[test]
fn a_sweep_through_zero() {
    let text = b"X;-9.9\nX;-0.1\nX;0.0\nX;9.9\n";
    assert_eq!(text_of(summarize(text, 1)), "{X=-9.9/-0.0/9.9}");
}

#[test]
fn a_report_of_the_shortest_line_and_of_the_longest_temperature() {
    assert_eq!(text_of(summarize(b"A;0.0\n", 1)), "{A=0.0/0.0/0.0}");
    assert_eq!(text_of(summarize(b"X;-99.9\n", 1)), "{X=-99.9/-99.9/-99.9}");
    assert_eq!(text_of(summarize(b"A;0.0\nX;-99.9\n", 2)), "{A=0.0/0.0/0.0, X=-99.9/-99.9/-99.9}");
}

#[test]
fn a_station_name_of_several_bytes_a_letter() {
    let text = "Zürich;1.5\n東京;20.0\nZürich;2.5\nAbidjan;30.1\n".as_bytes();
    assert_eq!(
        text_of(summarize(text, 2)),
        "{Abidjan=30.1/30.1/30.1, Zürich=1.5/2.0/2.5, 東京=20.0/20.0/20.0}"
    );
}

#[test]
fn the_number_of_workers_does_not_change_the_report() {
    let text = b"Hamburg;12.0\nBulawayo;8.9\nHamburg;-1.5\nBulawayo;18.2\nCairo;33.3\nHamburg;0.0\n";
    let expected = summarize(text, 1).unwrap();
    for workers in 2..=80 {
        assert_eq!(summarize(text, workers).unwrap(), expected, "{} workers", workers);
    }
}

#[test]
fn a_synthetic_file_of_uniform_lines_reports_the_same_for_1_2_4_8_workers() {
    let mut text = Vec::new();
    for line in 0..65536u32 {
        let station = (line.wrapping_mul(2654435761) >> 7) % 413;
        let tenths = (line.wrapping_mul(40503) >> 3) % 1000;
        text.extend_from_slice(
            format!("station{:03};{:02}.{}\n", station, tenths / 10, tenths % 10).as_bytes(),
        );
    }
    assert_eq!(text.len(), 1 << 20);
    let expected = summarize(&text, 1).unwrap();
    assert_eq!(expected.iter().filter(|&&byte| byte == b'=').count(), 413);
    for workers in [2, 4, 8] {
        assert_eq!(summarize(&text, workers).unwrap(), expected);
    }
    assert_eq!(summarize(&text, 1).unwrap(), expected);
}

#[test]
fn a_boundary_just_behind_a_newline_and_just_before_one() {
    let text = b"aaa;1.0\nb;2.0\nccc;3.0\n";
    assert_eq!(text[7], b'\n');
    let expected = "{aaa=1.0/1.0/1.0, b=2.0/2.0/2.0, ccc=3.0/3.0/3.0}";
    assert_eq!(plan_chunks(text, 3).unwrap()[1], (8, 22));
    assert_eq!(text_of(summarize(text, 3)), expected);
    let text = b"aaaa;1.0\nb;2.0\nccc;3.0\n";
    assert_eq!(text[8], b'\n');
    assert_eq!(text.len() / 2 / 1, 11);
    assert_eq!(plan_chunks(b"aaaaaaa;1.0\nb;2.0\nccc;3.0\n", 2).unwrap(), vec![(0, 18), (18, 26)]);
    assert_eq!(plan_chunks(b"aaaaaaaa;1.0\nb;2.0\nccc;3.0\n", 2).unwrap(), vec![(0, 19), (19, 27)]);
    assert_eq!(
        text_of(summarize(b"aaaaaaaa;1.0\nb;2.0\nccc;3.0\n", 2)),
        "{aaaaaaaa=1.0/1.0/1.0, b=2.0/2.0/2.0, ccc=3.0/3.0/3.0}"
    );
}

#[test]
fn the_parts_can_be_run_apart_and_merged_in_any_order() {
    let text = b"Hamburg;12.0\nBulawayo;8.9\nHamburg;-1.5\nBulawayo;18.2\nCairo;33.3\nHamburg;0.0\n";
    let expected = summarize(text, 1).unwrap();
    let ranges = plan_chunks(text, 3).unwrap();
    let mut partials = Vec::new();
    for &(start, end) in ranges.iter().rev() {
        partials.extend(process_chunk(text, start, end).unwrap());
    }
    assert!(can_merge(&partials));
    assert_eq!(format_report(&merge(&partials)), expected);
}

#[test]
fn an_input_without_a_last_newline_gives_no_report() {
    assert_eq!(summarize(b"Hamburg;12.0", 1), Err(Error::MalformedInput { offset: 12 }));
    assert_eq!(
        summarize(b"Hamburg;12.0\nBulawayo;8.9", 2),
        Err(Error::MalformedInput { offset: 25 })
    );
    assert_eq!(summarize(b"", 1), Err(Error::MalformedInput { offset: 0 }));
}

#[test]
fn a_faulty_line_gives_its_error_with_its_place_in_the_input() {
    let text = b"Hamburg;12.0\nBulawayo;8.9\nHamburg\nBulawayo;18.2\nCairo;3\n";
    for workers in 1..=4 {
        assert_eq!(summarize(text, workers), Err(Error::MalformedLine { offset: 26 }));
    }
    let text = b"Hamburg;12.0\nBulawayo;8.9\nHamburg;1.55\n";
    for workers in 1..=4 {
        assert_eq!(summarize(text, workers), Err(Error::MalformedTemperature { offset: 26 }));
    }
}

#[test]
fn two_runs_give_the_same_bytes() {
    let mut text = Vec::new();
    for line in 0..5000u32 {
        text.extend_from_slice(
            format!("s{};-{}.{}\n", (line * 31) % 977, line % 100, line % 10).as_bytes(),
        );
    }
    assert_eq!(summarize(&text, 4), summarize(&text, 4));
    assert_eq!(summarize(&text, 3), summarize(&text, 5));
}
