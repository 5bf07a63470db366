use qlion::opr::{
    mark_same_phone_order, merge_diff_order, merge_same_order, remove_invalid_item, remove_repeat,
    OrderKey, PhoneAndTele,
};
use qlion::order::Order;

#[test]
fn test_order_key_eq() {
    assert!(
        OrderKey {
            consignee: "zhangsan".to_string(),
            shipping_address: "shenzhen".to_string(),
            status: "等待发货".to_string(),
            phones: PhoneAndTele {
                phone: "123456789".to_string(),
                telephone: "".to_string(),
            },
        }
        .matches(&OrderKey {
            consignee: "zhangsan".to_string(),
            shipping_address: "shenzhen".to_string(),
            status: "等待发货".to_string(),
            phones: PhoneAndTele {
                phone: "123456789".to_string(),
                telephone: "".to_string(),
            },
        })
    );

    // with a non-empty phone, the phone alone decides
    assert!(
        OrderKey {
            consignee: "zhangsan".to_string(),
            shipping_address: "shenzhen".to_string(),
            status: "等待发货".to_string(),
            phones: PhoneAndTele {
                phone: "123456789".to_string(),
                telephone: "".to_string(),
            },
        }
        .matches(&OrderKey {
            consignee: "zhangsan".to_string(),
            shipping_address: "shenzhen".to_string(),
            status: "等待发货".to_string(),
            phones: PhoneAndTele {
                phone: "123456789".to_string(),
                telephone: "123".to_string(),
            },
        })
    );

    assert!(
        !OrderKey {
            consignee: "zhangsan".to_string(),
            shipping_address: "shenzhen".to_string(),
            status: "等待发货".to_string(),
            phones: PhoneAndTele {
                phone: "1234567890".to_string(),
                telephone: "".to_string(),
            },
        }
        .matches(&OrderKey {
            consignee: "zhangsan".to_string(),
            shipping_address: "shenzhen".to_string(),
            status: "等待发货".to_string(),
            phones: PhoneAndTele {
                phone: "123456789".to_string(),
                telephone: "123".to_string(),
            },
        })
    );

    // with empty phones, the telephone decides
    assert!(
        OrderKey {
            consignee: "zhangsan".to_string(),
            shipping_address: "shenzhen".to_string(),
            status: "等待发货".to_string(),
            phones: PhoneAndTele {
                phone: "".to_string(),
                telephone: "123".to_string(),
            },
        }
        .matches(&OrderKey {
            consignee: "zhangsan".to_string(),
            shipping_address: "shenzhen".to_string(),
            status: "等待发货".to_string(),
            phones: PhoneAndTele {
                phone: "".to_string(),
                telephone: "123".to_string(),
            },
        })
    );

    assert!(
        !OrderKey {
            consignee: "zhangsan".to_string(),
            shipping_address: "shenzhen".to_string(),
            status: "等待发货".to_string(),
            phones: PhoneAndTele {
                phone: "".to_string(),
                telephone: "1234".to_string(),
            },
        }
        .matches(&OrderKey {
            consignee: "zhangsan".to_string(),
            shipping_address: "shenzhen".to_string(),
            status: "等待发货".to_string(),
            phones: PhoneAndTele {
                phone: "".to_string(),
                telephone: "123".to_string(),
            },
        })
    );
}

#[test]
fn test_mark_same_phone_order() {
    let mut orders = Vec::new();
    let mut order = Order::empty();
    order.id = String::from("order-1");
    order.phone = String::from("123456");
    orders.push(order);

    let mut order = Order::empty();
    order.id = String::from("order-2");
    order.phone = String::from("123456");
    orders.push(order);

    let mut order = Order::empty();
    order.id = String::from("order-3");
    order.phone = String::from("123457");
    orders.push(order);

    // same as order-1 and order-2: the telephone is ignored
    let mut order = Order::empty();
    order.id = String::from("order-4");
    order.phone = String::from("123456");
    order.telephone = String::from("123456");
    orders.push(order);

    let mut order = Order::empty();
    order.id = String::from("order-5");
    order.phone = String::from("");
    order.telephone = String::from("123456");
    orders.push(order);

    let mut order = Order::empty();
    order.id = String::from("order-6");
    order.phone = String::from("");
    order.telephone = String::from("123456");
    orders.push(order);

    let mut order = Order::empty();
    order.id = String::from("order-7");
    order.phone = String::from("");
    order.telephone = String::from("1234567");
    orders.push(order);

    mark_same_phone_order(&mut orders);
    assert!(orders[0].has_same_phone_order);
    assert!(orders[1].has_same_phone_order);
    assert!(!orders[2].has_same_phone_order);

    // same as order-1 and order-2: the telephone is ignored
    assert!(orders[3].has_same_phone_order);

    // order-5 and order-6 match: both phones empty, telephones equal;
    // order-7 does not: its telephone differs
    assert!(orders[4].has_same_phone_order);
    assert!(orders[5].has_same_phone_order);
    assert!(!orders[6].has_same_phone_order);
}

#[test]
fn test_merge_diff_order() {
    let mut orders = Vec::new();
    let mut order = Order::empty();
    order.id = String::from("order-1");
    order.consignee = String::from("xiaoming");
    order.shipping_address = String::from("beijing");
    order.phone = String::from("123456789");
    order.item_name = String::from("AJ001 helloworld");
    orders.push(order);
    let mut order = Order::empty();
    order.id = String::from("order-2");
    order.consignee = String::from("xiaoming");
    order.shipping_address = String::from("beijing");
    order.phone = String::from("123456789");
    order.item_name = String::from("AJ003 helloworld");
    orders.push(order);
    let mut order = Order::empty();
    order.id = String::from("order-3");
    order.consignee = String::from("xiaohuang");
    order.shipping_address = String::from("beijing");
    order.phone = String::from("123456789");
    order.item_name = String::from("AJ002 helloworld");
    orders.push(order);

    orders = merge_diff_order(orders);
    assert_eq!(orders.len(), 2);
    assert_eq!(orders[0].id, "order-1");
    assert_eq!(orders[0].item_name, "AJ001 helloworld\nAJ003 helloworld");
    assert_eq!(orders[0].merged, vec![String::from("order-2")]);
    assert_eq!(orders[1].id, "order-3");
}

#[test]
fn test_merge_same_order() {
    let mut orders = Vec::new();
    let mut order = Order::empty();
    order.id = String::from("order-1");
    order.item_name = String::from("AJ001 helloworld");
    orders.push(order);
    let mut order = Order::empty();
    order.id = String::from("order-1");
    order.item_name = String::from("AJ003 helloworld");
    orders.push(order);
    let mut order = Order::empty();
    order.id = String::from("order-2");
    order.item_name = String::from("AJ002 helloworld");
    orders.push(order);

    orders = merge_same_order(orders);
    assert_eq!(orders.len(), 2);
    assert_eq!(orders[0].id, "order-1");
    assert_eq!(orders[0].item_name, "AJ001 helloworld\nAJ003 helloworld");
}

#[test]
fn test_remove_invalid_item() {
    let mut orders = Vec::new();

    let mut order = Order::empty();
    order.id = String::from("order-1");
    order.item_name = String::from("AJ001 helloworld");
    orders.push(order);
    let mut order = Order::empty();
    order.id = String::from("order-1");
    order.item_name = String::from("AJ003 helloworld");
    orders.push(order);
    let mut order = Order::empty();
    order.id = String::from("order-2");
    order.item_name = String::from("AJ002 helloworld");
    orders.push(order);

    orders = remove_invalid_item(orders, &String::from("aJ001"));
    assert_eq!(orders.len(), 1);
    assert_eq!(orders[0].id, "order-1");
    assert!(orders[0].splited);
}

#[test]
fn test_remove_repeat_on_diff_order() {
    let mut orders = Vec::new();

    let mut order = Order::empty();
    order.id = String::from("order-1");
    order.group = 1;
    orders.push(order);
    let mut order = Order::empty();
    order.id = String::from("order-2");
    order.group = 2;
    orders.push(order);

    orders = remove_repeat(orders);
    assert_eq!(orders.len(), 2);
}

#[test]
fn test_remove_repeat_on_diff_group() {
    let mut orders = Vec::new();

    let mut order = Order::empty();
    order.id = String::from("order-1");
    order.group = 1;
    orders.push(order);
    let mut order = Order::empty();
    order.id = String::from("order-1");
    order.group = 2;
    orders.push(order);

    orders = remove_repeat(orders);
    assert_eq!(orders.len(), 1);
}

#[test]
fn test_remove_repeat_on_same_group() {
    let mut orders = Vec::new();

    let mut order = Order::empty();
    order.id = String::from("order-1");
    order.group = 1;
    orders.push(order);
    let mut order = Order::empty();
    order.id = String::from("order-1");
    order.group = 1;
    orders.push(order);

    orders = remove_repeat(orders);
    assert_eq!(orders.len(), 2);
}

#[test]
fn test_remove_repeat_twice_is_same() {
    let mut orders = Vec::new();
    let mut order = Order::empty();
    order.id = String::from("order-1");
    order.group = 1;
    orders.push(order);
    let mut order = Order::empty();
    order.id = String::from("order-1");
    order.group = 1;
    orders.push(order);
    let mut order = Order::empty();
    order.id = String::from("order-1");
    order.group = 3;
    orders.push(order);
    let mut order = Order::empty();
    order.id = String::from("order-2");
    order.group = 4;
    orders.push(order);

    let once = remove_repeat(orders);
    let ids: Vec<String> = once.iter().map(|o| o.id.clone()).collect();
    let groups: Vec<u32> = once.iter().map(|o| o.group).collect();
    assert_eq!(ids, vec!["order-1".to_string(), "order-1".to_string(), "order-2".to_string()]);
    assert_eq!(groups, vec![1, 1, 4]);

    let twice = remove_repeat(once);
    let ids_again: Vec<String> = twice.iter().map(|o| o.id.clone()).collect();
    let groups_again: Vec<u32> = twice.iter().map(|o| o.group).collect();
    assert_eq!(ids_again, ids);
    assert_eq!(groups_again, groups);
}

#[test]
fn test_merge_same_order_totals() {
    let mut orders = Vec::new();
    let mut order = Order::empty();
    order.id = String::from("order-1");
    order.item_name = String::from("AJ001 a");
    order.total_count = 2;
    order.price = 1050;
    order.total_price = 2100;
    orders.push(order);
    let mut order = Order::empty();
    order.id = String::from("order-1");
    order.item_name = String::from("AJ001 b");
    order.total_count = 3;
    order.price = 200;
    order.total_price = 600;
    orders.push(order);
    let mut order = Order::empty();
    order.id = String::from("order-2");
    order.item_name = String::from("AJ001 c");
    order.total_count = 5;
    order.price = 100;
    order.total_price = 500;
    orders.push(order);

    let orders = merge_same_order(orders);
    assert_eq!(orders.len(), 2);
    assert_eq!(orders[0].total_count, 5);
    assert_eq!(orders[0].total_price, 2700);
    assert_eq!(orders[1].total_count, 5);
    assert_eq!(orders[1].total_price, 500);
}

#[test]
fn test_merge_diff_order_totals() {
    let mut orders = Vec::new();
    let mut order = Order::empty();
    order.id = String::from("order-1");
    order.phone = String::from("123");
    order.total_count = 1;
    order.total_price = 1000;
    orders.push(order);
    let mut order = Order::empty();
    order.id = String::from("order-2");
    order.phone = String::from("123");
    order.total_count = 4;
    order.total_price = 250;
    orders.push(order);

    let orders = merge_diff_order(orders);
    assert_eq!(orders.len(), 1);
    assert_eq!(orders[0].total_count, 5);
    assert_eq!(orders[0].total_price, 1250);
    assert_eq!(orders[0].merged, vec![String::from("order-2")]);
}

#[test]
fn test_merge_keeps_leave_msg_rules() {
    let mut a = Order::empty();
    a.id = String::from("order-1");
    a.phone = String::from("123");
    a.leave_msg = String::from("first note");
    let mut b = Order::empty();
    b.id = String::from("order-2");
    b.phone = String::from("123");
    b.leave_msg = String::from("second note");
    let mut c = Order::empty();
    c.id = String::from("order-3");
    c.phone = String::from("123");
    c.leave_msg = String::from("");

    let merged = merge_diff_order(vec![a, b, c]);
    assert_eq!(merged.len(), 1);
    assert_eq!(merged[0].leave_msg, "first note\nsecond note");
}
