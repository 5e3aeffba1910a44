use city_stats::reducer::get_average;
use city_stats::stats::City;

fn observe_all(values: &[i16]) -> City {
    let mut city = City::default();
    for v in values {
        city.add(*v);
    }
    city
}

#[test]
fn default_city_has_the_sentinels() {
    let city = City::default();
    assert_eq!(city.count(), 0);
    assert_eq!(city.sum(), 0);
    assert_eq!(city.min(), i16::MAX);
    assert_eq!(city.max(), i16::MIN);
    assert_eq!(city.mean(), 0);
}

#[test]
fn add_updates_every_field() {
    let mut city = City::default();
    city.add(123);
    assert_eq!((city.count(), city.sum(), city.min(), city.max()), (1, 123, 123, 123));
    assert_eq!(city.mean(), 123);
    city.add(56);
    assert_eq!((city.count(), city.sum(), city.min(), city.max()), (2, 179, 56, 123));
    assert_eq!(city.mean(), 89);
    city.add(-400);
    assert_eq!((city.count(), city.sum(), city.min(), city.max()), (3, -221, -400, 123));
    assert_eq!(city.mean(), -73);
}

#[test]
fn sum_does_not_wrap_where_sixteen_bits_would() {
    let mut city = City::default();
    for _ in 0..100_000 {
        city.add(i16::MAX);
    }
    assert_eq!(city.count(), 100_000);
    assert_eq!(city.sum(), 3_276_700_000);
    assert_eq!(city.mean(), i16::MAX);
    let mut low = City::default();
    for _ in 0..100_000 {
        low.add(i16::MIN);
    }
    assert_eq!(low.sum(), -3_276_800_000);
    assert_eq!(low.mean(), i16::MIN);
}

#[test]
fn order_of_observations_does_not_matter() {
    let values = [5i16, -17, 300, 0, -17, 42, 999, -999];
    let forward = observe_all(&values);
    let mut reversed = values;
    reversed.reverse();
    let backward = observe_all(&reversed);
    let mut rotated = values;
    rotated.rotate_left(3);
    let turned = observe_all(&rotated);
    for other in [backward, turned] {
        assert_eq!(other.count(), forward.count());
        assert_eq!(other.sum(), forward.sum());
        assert_eq!(other.min(), forward.min());
        assert_eq!(other.max(), forward.max());
        assert_eq!(other.mean(), forward.mean());
    }
    assert_eq!(forward.count(), 8);
    assert_eq!(forward.sum(), 313);
    assert_eq!(forward.min(), -999);
    assert_eq!(forward.max(), 999);
    assert_eq!(forward.mean(), 39);
}

#[test]
fn mean_lies_between_min_and_max() {
    let runs: [&[i16]; 5] = [&[1], &[-1, -2], &[-5, 4], &[i16::MIN, i16::MAX], &[3, 3, 4]];
    for values in runs {
        let city = observe_all(values);
        assert!(city.min() <= city.mean());
        assert!(city.mean() <= city.max());
    }
}

#[test]
fn running_mean_is_the_mean_of_the_buffered_values() {
    let values = [12i16, -7, 300, -301, 5, 5, 5, 18, -1000, 77, 3, 1, 0, -2, 9, 16, 23];
    let city = observe_all(&values);
    assert_eq!(city.mean(), get_average(&values));
    assert_eq!(city.mean(), -49);
}
