/* Stand-ins for DPDK's inline functions and plain structures. */

#define _GNU_SOURCE
#include <stdio.h>
#include <string.h>

#include <rte_errno.h>
#include <rte_ethdev.h>
#include <rte_lcore.h>
#include <rte_log.h>
#include <rte_mbuf.h>

typedef void (*log_fn)(const char *buf, size_t len);

int shim_errno(void) { return rte_errno; }

uint64_t shim_max_ethports(void) { return RTE_MAX_ETHPORTS; }

unsigned shim_cache_line_size(void) { return RTE_CACHE_LINE_SIZE; }

unsigned shim_lcore_id(void) { return rte_lcore_id(); }

static ssize_t log_write(void *cookie, const char *buf, size_t len) {
    ((log_fn)cookie)(buf, len);
    return len;
}

void *shim_init_logging(log_fn fn) {
    cookie_io_functions_t io = {.write = log_write};
    FILE *stream = fopencookie((void *)fn, "w", io);
    if (stream != NULL) {
        setvbuf(stream, NULL, _IOLBF, 0);
        rte_openlog_stream(stream);
    }
    return stream;
}

void shim_free_logging(void *stream) {
    rte_openlog_stream(NULL);
    fclose(stream);
}

int shim_port_info(uint16_t port, uint32_t *if_index, uint16_t *rx_queues) {
    struct rte_eth_dev_info info;
    memset(&info, 0, sizeof(info));
    int rc = rte_eth_dev_info_get(port, &info);
    *if_index = info.if_index;
    *rx_queues = info.nb_rx_queues;
    return rc;
}

int shim_port_configure(uint16_t port, uint16_t rx, uint16_t tx, uint64_t offloads, uint64_t rss_hf) {
    struct rte_eth_conf conf;
    memset(&conf, 0, sizeof(conf));
    conf.rxmode.mq_mode = RTE_ETH_MQ_RX_RSS;
    conf.rxmode.offloads = offloads;
    conf.rx_adv_conf.rss_conf.rss_hf = rss_hf;
    return rte_eth_dev_configure(port, rx, tx, &conf);
}

struct rte_mbuf *shim_mbuf_alloc(struct rte_mempool *mp) { return rte_pktmbuf_alloc(mp); }

char *shim_mbuf_append(struct rte_mbuf *mbuf, uint16_t len) { return rte_pktmbuf_append(mbuf, len); }

uint32_t shim_mbuf_len(const struct rte_mbuf *mbuf) { return rte_pktmbuf_pkt_len(mbuf); }

void shim_mbuf_refcnt_set(struct rte_mbuf *mbuf, uint16_t value) { rte_mbuf_refcnt_set(mbuf, value); }

uint16_t shim_rx_burst(uint16_t port, uint16_t queue, struct rte_mbuf **mbufs, uint16_t n) {
    return rte_eth_rx_burst(port, queue, mbufs, n);
}

uint16_t shim_tx_burst(uint16_t port, uint16_t queue, struct rte_mbuf **mbufs, uint16_t n) {
    return rte_eth_tx_burst(port, queue, mbufs, n);
}
