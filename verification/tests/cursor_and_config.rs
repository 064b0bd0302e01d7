use seagul::config::{Channel, Configuration};
use seagul::cursor::{positions, Position};
use seagul::error::CodecError;
use seagul::verbose_do;

fn config(channel: Channel, bits: u8, offset: usize, step: usize) -> Configuration {
    Configuration::new(channel, bits, offset, step).unwrap()
}

#[test]
fn cursor_is_deterministic() {
    let cfg = config(Channel::All, 3, 7, 2);
    let first = positions(13, 9, &cfg);
    let second = positions(13, 9, &cfg);
    assert_eq!(first, second);
}

#[test]
fn cursor_single_channel_order() {
    let cfg = config(Channel::Green, 1, 0, 0);
    let got = positions(3, 1, &cfg);
    let want = vec![
        Position { pixel: 0, channel: 1 },
        Position { pixel: 1, channel: 1 },
        Position { pixel: 2, channel: 1 },
    ];
    assert_eq!(got, want);
}

#[test]
fn cursor_cycles_all_channels_within_a_pixel() {
    let cfg = config(Channel::All, 1, 0, 0);
    let got = positions(2, 1, &cfg);
    let want = vec![
        Position { pixel: 0, channel: 0 },
        Position { pixel: 0, channel: 1 },
        Position { pixel: 0, channel: 2 },
        Position { pixel: 1, channel: 0 },
        Position { pixel: 1, channel: 1 },
        Position { pixel: 1, channel: 2 },
    ];
    assert_eq!(got, want);
}

#[test]
fn cursor_all_triples_single_channel_capacity() {
    let all = positions(5, 4, &config(Channel::All, 1, 3, 2));
    let red = positions(5, 4, &config(Channel::Red, 1, 3, 2));
    assert_eq!(all.len(), 3 * red.len());
}

#[test]
fn cursor_honours_offset_and_step() {
    let cfg = config(Channel::Blue, 1, 2, 1);
    let got = positions(10, 1, &cfg);
    let want = vec![
        Position { pixel: 2, channel: 2 },
        Position { pixel: 4, channel: 2 },
        Position { pixel: 6, channel: 2 },
        Position { pixel: 8, channel: 2 },
    ];
    assert_eq!(got, want);
}

#[test]
fn cursor_offset_beyond_grid_yields_nothing() {
    let cfg = config(Channel::Blue, 1, 12, 0);
    assert_eq!(positions(3, 4, &cfg).len(), 0);
    let edge = config(Channel::Blue, 1, 11, 0);
    assert_eq!(positions(3, 4, &edge).len(), 1);
}

#[test]
fn configuration_rejects_bit_depth_out_of_range() {
    assert_eq!(
        Configuration::new(Channel::Red, 0, 0, 0).unwrap_err(),
        CodecError::InvalidConfiguration
    );
    assert_eq!(
        Configuration::new(Channel::Red, 9, 0, 0).unwrap_err(),
        CodecError::InvalidConfiguration
    );
    assert!(Configuration::new(Channel::Red, 1, 0, 0).is_ok());
    assert!(Configuration::new(Channel::Red, 8, 0, 0).is_ok());
}

#[test]
fn configuration_defaults() {
    let d = Configuration::default();
    assert_eq!(d.channel, Channel::Blue);
    assert_eq!(d.bits_per_channel, 1);
    assert_eq!(d.offset, 0);
    assert_eq!(d.step, 0);
    let r = Configuration::from_options(None, None, None, None).unwrap();
    assert_eq!(r, d);
}

#[test]
fn configuration_from_options_mixes_given_and_default() {
    let r = Configuration::from_options(Some(Channel::Red), Some(4), None, Some(9)).unwrap();
    assert_eq!(r.channel, Channel::Red);
    assert_eq!(r.bits_per_channel, 4);
    assert_eq!(r.offset, 0);
    assert_eq!(r.step, 9);
    assert_eq!(
        Configuration::from_options(None, Some(0), None, None).unwrap_err(),
        CodecError::InvalidConfiguration
    );
}

#[test]
fn verbose_do_runs_only_when_verbose() {
    let mut ran = false;
    verbose_do(true, || ran = true);
    assert!(ran);
    let mut ran_quiet = false;
    verbose_do(false, || ran_quiet = true);
    assert!(!ran_quiet);
}
