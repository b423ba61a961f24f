use rustitude::curr_time_millis;
use rustitude::mvt::{CommandInteger, GeoCmd, ParameterInteger};
use rustitude::qtree::QTreeKey;
use rustitude::tile_cache::{dec_str, DiskDirTileCache};

#[test]
fn command_integer_decodes_id_and_count() {
    assert_eq!(CommandInteger(9).id(), GeoCmd::MoveTo);
    assert_eq!(CommandInteger(9).count(), 1);
    let line_to_3 = CommandInteger((3 << 3) | 2);
    assert_eq!(line_to_3.id(), GeoCmd::LineTo);
    assert_eq!(line_to_3.count(), 3);
    assert_eq!(CommandInteger(15).id(), GeoCmd::ClosePath);
    assert_eq!(CommandInteger(4).id(), GeoCmd::UnKnown);
    assert_eq!(CommandInteger(0).id(), GeoCmd::UnKnown);
}

#[test]
fn parameter_integer_zigzag_decoding() {
    assert_eq!(ParameterInteger(0).value(), 0);
    assert_eq!(ParameterInteger(1).value(), -1);
    assert_eq!(ParameterInteger(2).value(), 1);
    assert_eq!(ParameterInteger(3).value(), -2);
    assert_eq!(ParameterInteger(50).value(), 25);
    assert_eq!(ParameterInteger(u32::MAX).value(), i32::MIN);
}

#[test]
fn decimal_formatting() {
    assert_eq!(dec_str(0), "0");
    assert_eq!(dec_str(7), "7");
    assert_eq!(dec_str(10), "10");
    assert_eq!(dec_str(2334), "2334");
    assert_eq!(dec_str(u32::MAX), "4294967295");
}

#[test]
fn tile_path_layout() {
    let cache = DiskDirTileCache {
        cache_path_prefix: String::from("tiles/img"),
        file_ext: String::from("png"),
    };
    let key = QTreeKey::new(5, 3, 7).unwrap();
    assert_eq!(cache.path_of(key), "tiles/img/5_3_7.png");
    let other = DiskDirTileCache {
        cache_path_prefix: String::from("cache"),
        file_ext: String::from("mvt"),
    };
    assert_eq!(
        other.path_of(QTreeKey::new(12, 2333, 2334).unwrap()),
        "cache/12_2333_2334.mvt"
    );
}

#[test]
fn clock_reads_something() {
    let a = curr_time_millis();
    assert!(a > 0);
}
