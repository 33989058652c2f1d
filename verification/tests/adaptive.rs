use lau_signal_processing_agents::adaptive::DelayLine;

fn taps(line: &DelayLine<f64>) -> Vec<f64> {
    (0..line.order()).map(|i| line.tap(i)).collect()
}

#[test]
fn delay_line_starts_filled() {
    let line = DelayLine::new(4, 0.0);
    assert_eq!(line.order(), 4);
    assert_eq!(taps(&line), vec![0.0; 4]);
    let empty: DelayLine<f64> = DelayLine::new(0, 0.0);
    assert_eq!(empty.order(), 0);
}

#[test]
fn delay_line_tap_zero_is_latest_sample() {
    let mut line = DelayLine::new(3, 0.0);
    line.push(1.0);
    assert_eq!(taps(&line), vec![1.0, 0.0, 0.0]);
    line.push(2.0);
    assert_eq!(taps(&line), vec![2.0, 1.0, 0.0]);
    line.push(3.0);
    assert_eq!(taps(&line), vec![3.0, 2.0, 1.0]);
    // The oldest sample falls out.
    line.push(4.0);
    assert_eq!(taps(&line), vec![4.0, 3.0, 2.0]);
}

#[test]
fn delay_line_is_a_sliding_window() {
    let mut line = DelayLine::new(5, -1);
    let inputs: Vec<i64> = (10..40).collect();
    for (count, &v) in inputs.iter().enumerate() {
        line.push(v);
        for k in 0..5 {
            let expected = if k <= count { inputs[count - k] } else { -1 };
            assert_eq!(line.tap(k), expected);
        }
    }
}

#[test]
fn delay_line_of_one_sample() {
    let mut line = DelayLine::new(1, 0u8);
    for v in 1..10u8 {
        line.push(v);
        assert_eq!(line.tap(0), v);
    }
}

#[test]
fn delay_line_reset_and_clone() {
    let mut line = DelayLine::new(3, 0.0);
    line.push(5.0);
    line.push(6.0);
    let copy = line.clone();
    line.reset(0.0);
    assert_eq!(taps(&line), vec![0.0, 0.0, 0.0]);
    assert_eq!(taps(&copy), vec![6.0, 5.0, 0.0]);
    line.push(7.0);
    assert_eq!(taps(&line), vec![7.0, 0.0, 0.0]);
}
