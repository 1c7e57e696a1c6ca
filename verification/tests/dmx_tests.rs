use audion::dmx::{build_artdmx, DmxClient};

fn header(seq: u8, lo: u8, hi: u8) -> Vec<u8> {
    let mut h = b"Art-Net\0".to_vec();
    h.extend([0x00, 0x50, 0x00, 14, seq, 0x00, lo, hi, 0x02, 0x00]);
    h
}

#[test]
fn artdmx_packet_layout() {
    let mut data = [0u8; 512];
    data[0] = 255;
    data[511] = 7;
    let p = build_artdmx(0x8123, 9, &data);
    assert_eq!(p.len(), 530);
    assert_eq!(&p[..18], &header(9, 0x23, 0x01)[..]);
    assert_eq!(p[18], 255);
    assert_eq!(p[529], 7);
}

#[test]
fn client_sets_channels_and_numbers_packets() {
    let mut d = DmxClient::new();
    d.set_universe(3);
    d.set_channel(0, 10);
    d.set_channel(511, 20);
    d.set_channel(512, 30);
    let p = d.next_packet();
    assert_eq!(&p[..18], &header(1, 3, 0)[..]);
    assert_eq!(p[18], 10);
    assert_eq!(p[529], 20);
    let p2 = d.next_packet();
    assert_eq!(p2[12], 2);
}

#[test]
fn set_range_drops_values_past_the_end() {
    let mut d = DmxClient::new();
    d.set_range(510, &[1, 2, 3, 4]);
    d.set_range(600, &[9]);
    let p = d.next_packet();
    assert_eq!(&p[18 + 509..], &[0, 1, 2]);
}

#[test]
fn sequence_wraps_and_skips_zero() {
    let mut d = DmxClient::new();
    let mut seen = Vec::new();
    for _ in 0..257 {
        seen.push(d.next_packet()[12]);
    }
    assert_eq!(seen[0], 1);
    assert_eq!(seen[254], 255);
    assert_eq!(seen[255], 1);
    assert_eq!(seen[256], 1);
    assert!(seen.iter().all(|&s| s != 0));
}

#[test]
fn blackout_zeroes_every_channel() {
    let mut d = DmxClient::new();
    d.set_range(0, &[5; 512]);
    let p = d.blackout();
    assert!(p[18..].iter().all(|&b| b == 0));
    assert_eq!(p[12], 1);
}
