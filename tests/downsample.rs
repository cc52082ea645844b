use celestial_render::downsample::{downsample_buffer, pack_rgb};

#[test]
fn averages_each_block_per_channel() {
    let high = vec![0x102030, 0x302010, 0xffffff, 0xffffff, 0x000000, 0x0000ff, 0xffffff, 0xfffffd];
    let low = downsample_buffer(&high, 4, 2, 2, 1);
    assert_eq!(low, vec![0x10104f, 0xfffffe]);
}

#[test]
fn uneven_sizes_leave_out_the_remainder() {
    let mut high = vec![0x0000ffu32; 25];
    for i in 0..5 {
        high[i * 5 + 4] = 0xff0000;
        high[20 + i] = 0xff0000;
    }
    let low = downsample_buffer(&high, 5, 5, 2, 2);
    assert_eq!(low, vec![0x0000ff; 4]);
}

#[test]
fn same_size_copies() {
    let high = vec![1, 2, 3, 0x040506];
    assert_eq!(downsample_buffer(&high, 2, 2, 2, 2), high);
}

#[test]
fn larger_output_than_input_is_black() {
    let high = vec![0xffffff; 4];
    assert_eq!(downsample_buffer(&high, 2, 2, 4, 4), vec![0; 16]);
}

#[test]
fn pack_places_channels() {
    assert_eq!(pack_rgb(0x12, 0x34, 0x56), 0x123456);
    assert_eq!(pack_rgb(0, 0, 0), 0);
    assert_eq!(pack_rgb(255, 255, 255), 0xffffff);
}
